//! Distance metrics.
use vstd::prelude::*;

verus! {

/// A distance metric.
#[derive(Clone, Copy, Debug, PartialEq, Eq, Structural)]
pub enum Dist {
    /// Squared Euclidean distance.
    SquaredEuclidean,
    /// Cosine distance.
    Cosine,
    /// Manhattan distance.
    Manhattan,
}

impl Default for Dist {
    fn default() -> (r: Self)
        ensures
            r == Dist::SquaredEuclidean,
    {
        Dist::SquaredEuclidean
    }
}

/// The metric that a text names.
pub open spec fn metric_named(text: Seq<char>) -> Option<Dist> {
    if text == "euclidean"@ {
        Some(Dist::SquaredEuclidean)
    } else if text == "cosine"@ {
        Some(Dist::Cosine)
    } else if text == "manhattan"@ || text == "manhatten"@ {
        Some(Dist::Manhattan)
    } else {
        None
    }
}

/// The metric that a text names, and the default metric where it names none.
pub open spec fn metric_or_default(text: Seq<char>) -> Dist {
    match metric_named(text) {
        Some(metric) => metric,
        None => Dist::SquaredEuclidean,
    }
}

/// Every metric has its own name, Manhattan a second spelling, and every other text falls back to
/// the squared Euclidean metric.
pub proof fn law_metric_names(text: Seq<char>)
    ensures
        metric_named(text) == Some(Dist::SquaredEuclidean) <==> text == "euclidean"@,
        metric_named(text) == Some(Dist::Cosine) <==> text == "cosine"@,
        metric_named(text) == Some(Dist::Manhattan) <==> text == "manhattan"@ || text
            == "manhatten"@,
        metric_or_default(text) == Dist::Cosine <==> text == "cosine"@,
        metric_or_default(text) == Dist::Manhattan <==> text == "manhattan"@ || text
            == "manhatten"@,
        metric_or_default(text) == Dist::SquaredEuclidean <==> text != "cosine"@ && text
            != "manhattan"@ && text != "manhatten"@,
{
    reveal_strlit("euclidean");
    reveal_strlit("cosine");
    reveal_strlit("manhattan");
    reveal_strlit("manhatten");
    assert("euclidean"@[0] == 'e' && "cosine"@[0] == 'c' && "manhattan"@[0] == 'm'
        && "manhatten"@[0] == 'm');
}

/// Are two texts the same?
fn same_text(a: &str, b: &str) -> (r: bool)
    ensures
        r == (a@ == b@),
{
    let n: usize = a.unicode_len();
    if b.unicode_len() != n {
        return false;
    }
    let mut i: usize = 0;
    while i < n
        invariant
            i <= n,
            n == a@.len(),
            n == b@.len(),
            forall|j: int| 0 <= j < i ==> a@[j] == b@[j],
        decreases n - i,
    {
        if a.get_char(i) != b.get_char(i) {
            return false;
        }
        i += 1;
    }
    assert(a@ =~= b@);
    true
}

/// Read the name of a metric.
pub fn parse_ann_dist(text: &str) -> (r: Option<Dist>)
    ensures
        r == metric_named(text@),
{
    if same_text(text, "euclidean") {
        Some(Dist::SquaredEuclidean)
    } else if same_text(text, "cosine") {
        Some(Dist::Cosine)
    } else if same_text(text, "manhattan") || same_text(text, "manhatten") {
        Some(Dist::Manhattan)
    } else {
        None
    }
}

/// Read the name of a metric; a text that names none stands for squared Euclidean distance.
pub fn resolve_metric(text: &str) -> (r: Dist)
    ensures
        r == metric_or_default(text@),
{
    match parse_ann_dist(text) {
        Some(metric) => metric,
        None => Dist::default(),
    }
}

} // verus!
