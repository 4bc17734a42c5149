//! An embeddable SQL engine core: values, catalog, MVCC row store, write-ahead
//! log codec, SQL front end and executor, with every decision stated as a
//! contract and proved.
#![allow(unused_imports)]
pub mod text;
pub mod error;
pub mod ieee;
pub mod asks;
pub mod vector;
pub mod base64;
pub mod value;
pub mod catalog;
pub mod datetime;
pub mod datelaws;
pub mod json;
pub mod jsonlaws;
pub mod sql;
pub mod env;
pub mod strfn;
pub mod funcs;
pub mod ops;
pub mod keylaws;
pub mod likelaws;
pub mod eval;
pub mod aggregatelaws;
pub mod exprlaws;
pub mod funclaws;
pub mod store;
pub mod mvcc;
pub mod scope;
pub mod sorting;
pub mod orderlaws;
pub mod inspect;
pub mod query;
pub mod policy;
pub mod select;
pub mod grouplaws;
pub mod querylaws;
pub mod relation;
pub mod joinlaws;
pub mod relationlaws;
pub mod relational;
pub mod runner;
pub mod lex;
pub mod tokenlaws;
pub mod bindlaws;
pub mod grammar;
pub mod making;
pub mod parser;
pub mod pexpr;
pub mod codec;
pub mod wal;
pub mod statements;
pub mod pstmt;
pub mod refs;
pub mod views;
pub mod expandlaws;
pub mod constraints;
pub mod writes;
pub mod inserts;
pub mod updates;
pub mod writelaws;
pub mod policylaws;
pub mod schemalaws;
pub mod celllaws;
pub mod insertlaws;
pub mod primarylaws;
pub mod constraintlaws;
pub mod apartlaws;
pub mod sparelaws;
pub mod snapshotlaws;
pub mod ddl;
pub mod recovery;
pub mod group_commit;
pub mod session;
pub mod conn;
pub mod telling;
pub mod durabilitylaws;
pub mod savepointlaws;
pub mod definitionlaws;
pub mod idlaws;
pub mod reflect;
pub mod prepared;
pub mod host;
pub mod graph;
pub mod pages;
pub mod pagelaws;
pub mod graphlaws;
pub mod upkeep;
pub mod searchlaws;
pub mod graphs;
pub mod steplaws;
