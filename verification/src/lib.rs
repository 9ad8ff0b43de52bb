//! The core language of a dataflow compiler: its names, types and terms, what
//! can be done to them, and the phase that turns transactions into guarded
//! recurrences.
//!
//! Terms and types are trees. Each has a view, a uniform mathematical tree of a
//! form, subterms and types, and the contracts speak of these views. The modules
//! come in the order they build on each other:
//!
//! - `text` to `make`: names, maps of names, the trees and their walks;
//! - `refine_eq` to `layout`: equality, sets of restrictions, references to
//!   enclosing functions, and the kinds of functions;
//! - `symbolic` and `render`: how terms and types read;
//! - `substitution` to `capture`: substitutions, what they do and their laws;
//! - `type_forms` to `set_hash`: building types, witnesses, tags, hashing and
//!   ordering restrictions;
//! - `txn_terms` to `await_laws`: the transactional phase.

pub mod text;
pub mod name;
pub mod name_map;
pub mod ast;
pub mod sharing;
pub mod tree;
pub mod parts;
pub mod scope;
pub mod make;
pub mod refine_eq;
pub mod refinement_set;
pub mod equality;
pub mod pi;
pub mod kind_pin;
pub mod kind;
pub mod kind_vars;
pub mod kind_laws;
pub mod layout;
pub mod symbolic;
pub mod render;
pub mod substitution;
pub mod free_names;
pub mod subst;
pub mod subst_laws;
pub mod built;
pub mod meaning;
pub mod meaning_laws;
pub mod subst_scope;
pub mod subst_types;
pub mod subst_sets;
pub mod capture;
pub mod type_forms;
pub mod witness;
pub mod orders;
pub mod witness_walk;
pub mod canonical;
pub mod witness_laws;
pub mod tag_map;
pub mod predicate_hash;
pub mod predicate_order;
pub mod stored;
pub mod kind_dump;
pub mod pi_laws;
pub mod apart_laws;
pub mod opening_laws;
pub mod predicate_laws;
pub mod set_laws;
pub mod order_laws;
pub mod render_laws;
pub mod type_laws;
pub mod set_hash;
pub mod txn_terms;
pub mod probe;
pub mod swap;
pub mod as_of;
pub mod as_of_pass;
pub mod partition;
pub mod partition_laws;
pub mod block;
pub mod checks;
pub mod strip;
pub mod cross_domain;
pub mod decision;
pub mod walk;
pub mod writer;
pub mod store;
pub mod plan;
pub mod spine;
pub mod place;
pub mod awaits;
pub mod acyclic;
pub mod transact;
pub mod block_laws;
pub mod writer_laws;
pub mod history_laws;
pub mod join_laws;
pub mod waiting_laws;
pub mod reading_laws;
pub mod typing_laws;
pub mod footprint_laws;
pub mod seed_laws;
pub mod reply_laws;
pub mod type_reading_laws;
pub mod binder_laws;
pub mod equal_laws;
pub mod gather_laws;
pub mod numeral_laws;
pub mod place_laws;
pub mod store_laws;
pub mod strip_laws;
pub mod clear_terms;
pub mod clear_laws;
pub mod read_laws;
pub mod await_laws;
