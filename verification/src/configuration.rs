use vstd::prelude::*;
use crate::text::same_text;

verus! {

/// Label name of the contour that bounds a group.
pub const OUTER_LABEL: &'static str = "outer";
/// Label name of the contours inside a group that form the inner mask.
pub const INNER_LABEL: &'static str = "inner";

/// Settings of the mask pipeline.
#[derive(Debug, Clone)]
pub struct Configuration {
    /// Intensity painted for each special label name. A name occurs at most
    /// once (see `has_distinct_labels`); lookups use its first occurrence.
    pub label_map: Vec<(String, u8)>,
    /// Intensity near the outside border of an outer contour (inner parts are
    /// 255, the outside 0).
    pub gradient_alpha: u8,
}

/// The value of the first entry at or after `i` whose name is `key`.
pub open spec fn lookup_from(entries: Seq<(String, u8)>, key: Seq<char>, i: int) -> Option<u8>
    decreases entries.len() - i,
{
    if i < 0 || i >= entries.len() {
        None
    } else if entries[i].0@ == key {
        Some(entries[i].1)
    } else {
        lookup_from(entries, key, i + 1)
    }
}

/// Looking up `key` from entry `i` on gives the value of the first entry at or
/// after `i` named `key`, and nothing when no entry from `i` on is named so.
pub proof fn lemma_lookup_from(entries: Seq<(String, u8)>, key: Seq<char>, i: int)
    requires
        0 <= i,
    ensures
        lookup_from(entries, key, i) matches Some(v) ==> exists|k: int|
            i <= k < entries.len() && (#[trigger] entries[k]).0@ == key && entries[k].1 == v && forall|j: int|
                i <= j < k ==> (#[trigger] entries[j]).0@ != key,
        lookup_from(entries, key, i) is None ==> forall|k: int|
            i <= k < entries.len() ==> (#[trigger] entries[k]).0@ != key,
    decreases entries.len() - i,
{
    if i < entries.len() && entries[i].0@ != key {
        lemma_lookup_from(entries, key, i + 1);
    }
}

impl Configuration {
    /// The intensity configured for the label name `key`.
    pub open spec fn label_value(&self, key: Seq<char>) -> Option<u8> {
        lookup_from(self.label_map@, key, 0)
    }

    /// No label name is configured twice.
    pub open spec fn has_distinct_labels(&self) -> bool {
        forall|i: int, j: int|
            0 <= i < j < self.label_map@.len() ==> #[trigger] self.label_map@[i].0@
                != #[trigger] self.label_map@[j].0@
    }

    /// The intensity configured for the label name `key`, if any.
    pub fn label_intensity(&self, key: &str) -> (r: Option<u8>)
        ensures
            r == self.label_value(key@),
            r matches Some(v) ==> exists|k: int|
                0 <= k < self.label_map@.len() && (#[trigger] self.label_map@[k]).0@ == key@
                    && self.label_map@[k].1 == v && forall|j: int|
                    0 <= j < k ==> (#[trigger] self.label_map@[j]).0@ != key@,
            r is None ==> forall|k: int|
                0 <= k < self.label_map@.len() ==> (#[trigger] self.label_map@[k]).0@ != key@,
    {
        let n: usize = self.label_map.len();
        let mut i: usize = 0;
        while i < n
            invariant
                i <= n,
                n == self.label_map@.len(),
                self.label_value(key@) == lookup_from(self.label_map@, key@, i as int),
                forall|j: int| 0 <= j < i ==> (#[trigger] self.label_map@[j]).0@ != key@,
            decreases n - i,
        {
            if same_text(self.label_map[i].0.as_str(), key) {
                return Some(self.label_map[i].1);
            }
            i = i + 1;
        }
        None
    }
}

/// The settings the pipeline runs with: films and bags (`bag`, `bug`) are
/// painted with intensity 5, and the border gradient uses 35.
pub fn load_configuration() -> (c: Configuration)
    ensures
        c.label_value("bag"@) == Some(5u8),
        c.label_value("bug"@) == Some(5u8),
        forall|key: Seq<char>| key != "bag"@ && key != "bug"@ ==> c.label_value(key) is None,
        c.has_distinct_labels(),
        c.gradient_alpha == 35,
{
    let mut label_map: Vec<(String, u8)> = Vec::new();
    label_map.push((String::from_str("bag"), 5));
    label_map.push((String::from_str("bug"), 5));
    proof {
        reveal_strlit("bag");
        reveal_strlit("bug");
        assert("bag"@ != "bug"@) by {
            assert("bag"@[1] != "bug"@[1]);
        }
        assert(label_map@[0].0@ == "bag"@);
        assert(label_map@[1].0@ == "bug"@);
        assert(lookup_from(label_map@, "bug"@, 1) == Some(5u8));
        assert forall|key: Seq<char>| key != "bag"@ && key != "bug"@ implies lookup_from(
            label_map@,
            key,
            0,
        ) is None by {
            assert(lookup_from(label_map@, key, 2) is None);
            assert(lookup_from(label_map@, key, 1) is None);
        }
    }
    Configuration { label_map, gradient_alpha: 35 }
}

} // verus!
