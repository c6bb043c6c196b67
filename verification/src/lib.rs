//! A zero-copy archiving format.
//!
//! A value is archived into a byte buffer whose bytes, read through fixed
//! layout rules, are the data structure: nothing has to be decoded before a
//! field, a list element or a map entry can be read. Every pointer in the
//! buffer is an offset relative to the pointer's own position, so a buffer
//! may be copied anywhere and stays valid.
//!
//! Archiving takes two steps ([`archive`]). `serialize` writes what a
//! value keeps out of line and returns a resolver; `resolve` writes the
//! value's fixed-size form into a [`place`]. The [`ser`] module holds the
//! writer, an append-only sink of bounded capacity. The entry points are
//! in [`api`].
//!
//! Archived forms: integers and truth values ([`primitive`]), text
//! ([`string`]), lists ([`vec`], [`slice`]), optional values
//! ([`option_impl`], read in place as an [`option`]), pairs ([`tuple`]),
//! boxes ([`boxed`]), shared values ([`rc`]), ordered maps and sets
//! ([`btree`], [`btree_node`]) and hashed maps and sets ([`hash_table`],
//! [`hash_buckets`], [`hash_set`]).
//! Wrappers that change how one field is archived are in [`with`] and
//! [`niche`].
//!
//! Every function is verified against its contract: what is archived is
//! read back unchanged, a lookup over the raw bytes finds exactly the keys
//! of the map, and checked access accepts exactly the well-formed buffers.

pub mod api;
pub mod archive;
pub mod bench;
pub mod boxed;
pub mod btree;
pub mod btree_node;
pub mod error;
pub mod hash;
pub mod hash_buckets;
pub mod hash_set;
pub mod hash_table;
pub mod layout;
pub mod metadata;
pub mod niche;
pub mod option;
pub mod option_impl;
pub mod order;
pub mod place;
pub mod primitive;
pub mod rc;
pub mod rel_ptr;
pub mod ser;
pub mod slice;
pub mod string;
pub mod tuple;
pub mod vec;
pub mod with;
