//! Vector search: metrics, index parameters, the layered proximity graph and
//! its page format.
use vstd::prelude::*;
use crate::text::{lower_chars, lower_text, spells};

verus! {

/// How the distance of two vectors is measured.
#[derive(Clone, Copy, Debug, PartialEq, Eq, Structural)]
pub enum Metric {
    Cosine,
    L2,
    InnerProduct,
}

/// The metric a (lower-cased) name stands for.
pub open spec fn metric_named(s: Seq<char>) -> Option<Metric> {
    if s == "cosine"@ || s == "cos"@ {
        Some(Metric::Cosine)
    } else if s == "l2"@ || s == "euclidean"@ || s == "l2sq"@ {
        Some(Metric::L2)
    } else if s == "ip"@ || s == "inner_product"@ || s == "dot"@ || s == "negative_inner_product"@ {
        Some(Metric::InnerProduct)
    } else {
        None
    }
}

impl Metric {
    /// The metric an index option names, whatever the case of its letters.
    pub fn from_name(s: &str) -> (r: Option<Metric>)
        ensures
            r == metric_named(lower_text(s@)),
    {
        let n = lower_chars(s);
        if spells(&n, "cosine") || spells(&n, "cos") {
            Some(Metric::Cosine)
        } else if spells(&n, "l2") || spells(&n, "euclidean") || spells(&n, "l2sq") {
            Some(Metric::L2)
        } else if spells(&n, "ip") || spells(&n, "inner_product") || spells(&n, "dot") || spells(
            &n,
            "negative_inner_product",
        ) {
            Some(Metric::InnerProduct)
        } else {
            None
        }
    }

    pub open spec fn name(self) -> Seq<char> {
        match self {
            Metric::Cosine => "cosine"@,
            Metric::L2 => "l2"@,
            Metric::InnerProduct => "inner_product"@,
        }
    }

    pub fn as_name(self) -> (r: &'static str)
        ensures
            r@ == self.name(),
    {
        match self {
            Metric::Cosine => "cosine",
            Metric::L2 => "l2",
            Metric::InnerProduct => "inner_product",
        }
    }

    pub open spec fn spec_tag(self) -> u8 {
        match self {
            Metric::Cosine => 0,
            Metric::L2 => 1,
            Metric::InnerProduct => 2,
        }
    }

    pub fn tag(self) -> (r: u8)
        ensures
            r == self.spec_tag(),
    {
        match self {
            Metric::Cosine => 0,
            Metric::L2 => 1,
            Metric::InnerProduct => 2,
        }
    }

    pub open spec fn of_tag(t: u8) -> Metric {
        if t == 1 {
            Metric::L2
        } else if t == 2 {
            Metric::InnerProduct
        } else {
            Metric::Cosine
        }
    }

    pub fn from_tag(t: u8) -> (r: Metric)
        ensures
            r == Metric::of_tag(t),
    {
        if t == 1 {
            Metric::L2
        } else if t == 2 {
            Metric::InnerProduct
        } else {
            Metric::Cosine
        }
    }
}

/// A metric's name names that metric, and its tag is read back as that metric.
pub proof fn law_metric_round_trip(m: Metric)
    ensures
        metric_named(m.name()) == Some(m),
        Metric::of_tag(m.spec_tag()) == m,
{
    reveal_strlit("cosine");
    reveal_strlit("cos");
    reveal_strlit("l2");
    reveal_strlit("euclidean");
    reveal_strlit("l2sq");
    reveal_strlit("inner_product");
    assert("l2"@.len() == 2 && "cosine"@.len() == 6 && "cos"@.len() == 3);
    assert("inner_product"@.len() == 13 && "euclidean"@.len() == 9 && "l2sq"@.len() == 4);
}

/// Tuning of a proximity graph.
#[derive(Clone, Copy, Debug, PartialEq, Eq, Structural)]
pub struct IndexParams {
    /// Neighbours kept per node on the upper layers.
    pub m: usize,
    /// Candidate width while building.
    pub ef_construction: usize,
    /// Candidate width while searching.
    pub ef_search: usize,
    pub metric: Metric,
}

pub open spec fn default_params() -> IndexParams {
    IndexParams { m: 16, ef_construction: 200, ef_search: 64, metric: Metric::Cosine }
}

impl Default for IndexParams {
    fn default() -> (r: IndexParams)
        ensures
            r == default_params(),
    {
        IndexParams { m: 16, ef_construction: 200, ef_search: 64, metric: Metric::Cosine }
    }
}

/// A vector index: its name, and the table column it covers.
#[derive(Debug)]
pub struct IndexDef {
    pub name: String,
    pub table: String,
    pub column: String,
    pub params: IndexParams,
}

/// What an [`IndexDef`] says.
pub struct IndexDefV {
    pub name: Seq<char>,
    pub table: Seq<char>,
    pub column: Seq<char>,
    pub params: IndexParams,
}

impl View for IndexDef {
    type V = IndexDefV;

    open spec fn view(&self) -> IndexDefV {
        IndexDefV {
            name: self.name@,
            table: self.table@,
            column: self.column@,
            params: self.params,
        }
    }
}

impl Clone for IndexDef {
    fn clone(&self) -> (r: IndexDef)
        ensures
            r@ == self@,
    {
        IndexDef {
            name: self.name.clone(),
            table: self.table.clone(),
            column: self.column.clone(),
            params: self.params,
        }
    }
}

} // verus!
