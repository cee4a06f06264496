pub mod mounts;
