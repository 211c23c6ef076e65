[package]
name = "graph_based_image_segmentation"
version = "0.1.0"
edition = "2021"
publish = false
