pub mod text;
pub mod utf8_facts;
pub mod object;
pub mod codec;
pub mod object_laws;
pub mod index;
pub mod index_laws;
pub mod path;
pub mod refs;
pub mod acl;
pub mod flat;
pub mod merge;
pub mod ignore;
pub mod worktree;
pub mod lca;
pub mod cli;
