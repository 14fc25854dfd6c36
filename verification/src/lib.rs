//! A client of Microsoft SQL Server that takes calls as JSON documents and answers them as JSON
//! documents.
//!
//! This library decides everything about a call that does not need the server: what the call
//! asks for ([`call`]), which connection it uses and how that is configured ([`conn`],
//! [`config`], [`lexing`], [`cache`]), how values are bound to a query ([`query`]), how a
//! transaction goes on ([`batch`]), what rows become in JSON ([`cell`], [`temporal`],
//! [`render`]), and the reply ([`call`], [`failure`]). Connection strings and T-SQL text are treated in [`ado`], [`quoting`] and [`tsql`].
//! Every function states in its contract what it returns; [`readback`] proves that the texts of
//! column values lose nothing, and [`laws`] says what the operations are for.
#![allow(non_snake_case)]

pub mod ado;
pub mod batch;
pub mod cache;
pub mod call;
pub mod cell;
pub mod config;
pub mod conn;
pub mod failure;
pub mod json;
pub mod laws;
pub mod lexing;
pub mod query;
pub mod quoting;
pub mod readback;
pub mod render;
pub mod temporal;
pub mod text;
pub mod tsql;
