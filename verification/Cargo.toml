[package]
name = "indexing"
version = "0.1.0"
edition = "2021"
publish = false

[dependencies]
anyhow = "=1.0.104"
bstr = "=0.2.17"
csv = "=1.4.0"
fst = "=0.4.7"
grenad = "=0.1.0"
human_format = "=1.2.1"
linked-hash-map = "=0.5.6"
log = "=0.4.35"
obkv = "=0.1.1"
roaring = "=0.6.7"
serde_json = "=1.0.154"
tempfile = "=3.27.0"
