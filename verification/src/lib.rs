//! A wiki of linked markdown notes ("scraps"): the models and rules behind
//! building, linting and querying it.

pub mod error;
pub mod text;
pub mod title_group;
pub mod textops;
pub mod order;
pub mod summary;
pub mod model;
pub mod wiki;
pub mod backlinks;
pub mod tags;
pub mod lint;
pub mod neighborhood;
pub mod lookup;
pub mod search;
pub mod graph;
pub mod site;
pub mod usecases;
pub mod pages;
pub mod renders;
pub mod site_build;
pub mod read;
