//! Reproduce a CI job locally. Input references are parsed and printed
//! ([`input`]); the state of the dataset tree, the inputs and the repository
//! are reconciled into a [`plan::Plan`] of [`step::Step`]s, each of which
//! renders to the commands it runs ([`command`]). Job scripts carry their
//! metadata in `#:` comments ([`frontmatter`]); remote check runs list their
//! artefacts as Markdown links ([`artefacts`]); inputs are put in a fixed
//! order before planning ([`order`]).

pub mod artefacts;
pub mod command;
pub mod frontmatter;
pub mod input;
pub mod order;
pub mod path;
pub mod plan;
pub mod step;
