//! Inode namespace management for a userspace filesystem: kernel inode
//! numbers, the tree that names them, and the resolvers built on that tree.

pub mod batch_insert;
pub mod bytes;
pub mod default_fuse_handler;
pub mod dir_index;
pub mod dispatch;
pub mod errors;
pub mod file_id_type;
pub mod fuse_handler;
pub mod inode;
pub mod inode_mapper;
pub mod inode_mapping;
pub mod mapper_laws;
pub mod mapper_view;
pub mod path;
pub mod path_laws;
pub mod readdir;
pub mod resolver_laws;
pub mod resolver_view;
