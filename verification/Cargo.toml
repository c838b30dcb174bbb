[package]
name = "mqtt_topic_tree"
version = "0.1.0"
edition = "2021"
publish = false

[dependencies]
left-right = "*"
parking_lot = "*"
rand = "*"
