//! Type inference for a small functional language with let polymorphism, row-typed records,
//! algebraic effects and multi-parameter traits.

pub mod types;
pub mod rows;
pub mod row_laws;
pub mod cache;
pub mod bindings;
pub mod resolve;
pub mod subst;
pub mod subst_laws;
pub mod occurs;
pub mod occurs_laws;
pub mod effects;
pub mod unify;
pub mod unify_laws;
pub mod solve;
pub mod agreement;
pub mod typevars;
pub mod contains;
pub mod typevar_laws;
pub mod instantiate;
pub mod effect_sets;
pub mod effect_laws;
pub mod results;
pub mod patterns;
pub mod definitions;
pub mod impls;
pub mod rules;
pub mod tree;
pub mod expressions;
pub mod functions;
pub mod access;
pub mod declarations;
pub mod values;
pub mod branching;
pub mod programs;
pub mod impl_steps;
pub mod progress;
pub mod inference_laws;
pub mod definition_laws;
pub mod typing_laws;
pub mod depth_laws;
pub mod plain;
pub mod plain_laws;
pub mod accord;
pub mod acyclic;
pub mod solving_laws;
pub mod replacing_laws;
pub mod renewal_laws;
pub mod sorted_laws;
pub mod effect_agreement;
pub mod effect_flow;
pub mod rule_laws;
pub mod call_laws;
pub mod use_laws;
pub mod access_laws;
pub mod declaration_laws;
pub mod field_laws;
pub mod function_laws;
pub mod handler_laws;
pub mod member_laws;
pub mod pattern_laws;
pub mod value_laws;
pub mod impl_laws;
