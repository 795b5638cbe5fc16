[package]
name = "git_shell"
version = "0.1.0"
edition = "2021"
publish = false

[dependencies]
sublime_fuzzy = "0.6"
console = "0.15"
git2 = "*"
chrono = "0.4"
walkdir = "2"
dirs = "*"
app_dirs = "1"
