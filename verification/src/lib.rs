//! Lexical front end of the Stalc calculator language: a line of text in, a
//! flat stream of tokens out.
//!
//! A line is split at whitespace into terms ([`whitespace`], [`stream`]). Each
//! term is read as a literal or as a command with the start or the end of its
//! argument list ([`token`]); the literals are strings ([`quoted`]), booleans
//! ([`boolean`]), dates ([`datetime`]) and numbers ([`number`]). A number is
//! written in any radix from 1 to 62 ([`alphabet`]) and stands for an exact
//! fraction ([`numeral`]), computed with the integers and fractions of the
//! `num` crate ([`bignum`], [`rational`]).
//!
//! Every function states what it returns over the text it is given, and the
//! statements are proved, down to what [`bignum`] and [`text`] say of the
//! outside code they call.

pub mod alphabet;
pub mod bignum;
pub mod boolean;
pub mod datetime;
pub mod error;
pub mod number;
pub mod numeral;
pub mod quoted;
pub mod rational;
pub mod stream;
pub mod text;
pub mod token;
pub mod whitespace;
