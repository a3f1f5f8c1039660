use vstd::prelude::*;
use vstd::string::*;
use crate::text::{decimal, decimal_string, lemma_decimal_injective};

verus! {

/// The prefix of the outputs of augmentation `aug_index` of an image:
/// `<prefix>-aug-<aug_index>`.
pub open spec fn spec_augmentation_prefix(prefix: Seq<char>, aug_index: nat) -> Seq<char> {
    prefix + "-aug-"@ + decimal(aug_index)
}

/// The file an output tensor is stored in: `<prefix>_<idx>.png`, or
/// `<prefix>.png` for the image itself.
pub open spec fn spec_output_file_name(prefix: Seq<char>, tensor_idx: Option<usize>) -> Seq<char> {
    match tensor_idx {
        Some(idx) => prefix + "_"@ + decimal(idx as nat) + ".png"@,
        None => prefix + ".png"@,
    }
}

/// `<prefix>-aug-<aug_index>`
pub fn augmentation_prefix(prefix: &str, aug_index: usize) -> (r: String)
    ensures
        r@ == spec_augmentation_prefix(prefix@, aug_index as nat),
{
    let mut name: String = String::from_str(prefix);
    name.append("-aug-");
    let digits: String = decimal_string(aug_index);
    name.append(digits.as_str());
    name
}

/// The file name of an output tensor: `<prefix>_<idx>.png`, or
/// `<prefix>.png` when it has no tensor index.
pub fn output_file_name(prefix: &str, tensor_idx: Option<usize>) -> (r: String)
    ensures
        r@ == spec_output_file_name(prefix@, tensor_idx),
{
    let mut name: String = String::from_str(prefix);
    match tensor_idx {
        Some(idx) => {
            name.append("_");
            let digits: String = decimal_string(idx);
            name.append(digits.as_str());
        },
        None => {},
    }
    name.append(".png");
    name
}

proof fn lemma_strip_affixes(a: Seq<char>, x: Seq<char>, y: Seq<char>, b: Seq<char>)
    requires
        a + x + b == a + y + b,
    ensures
        x == y,
{
    let l = a + x + b;
    let r = a + y + b;
    assert(l.len() == r.len());
    assert(x.len() == y.len());
    assert forall|i: int| 0 <= i < x.len() implies x[i] == y[i] by {
        assert(l[a.len() + i] == x[i]);
        assert(r[a.len() + i] == y[i]);
    }
    assert(x =~= y);
}

/// The outputs of one image never share a file: different tensor indices
/// (or a tensor index and none) give different file names.
pub proof fn lemma_output_names_distinct(prefix: Seq<char>, a: Option<usize>, b: Option<usize>)
    requires
        a != b,
    ensures
        spec_output_file_name(prefix, a) != spec_output_file_name(prefix, b),
{
    reveal_strlit("_");
    reveal_strlit(".png");
    match (a, b) {
        (Some(i), Some(j)) => {
            if spec_output_file_name(prefix, a) == spec_output_file_name(prefix, b) {
                assert(prefix + "_"@ + decimal(i as nat) + ".png"@ == (prefix + "_"@) + decimal(i as nat) + ".png"@);
                lemma_strip_affixes(prefix + "_"@, decimal(i as nat), decimal(j as nat), ".png"@);
                lemma_decimal_injective(i as nat, j as nat);
            }
        },
        (Some(i), None) => {
            crate::text::lemma_parse_decimal(i as nat);
            assert(spec_output_file_name(prefix, a).len() > spec_output_file_name(prefix, b).len());
        },
        (None, Some(j)) => {
            crate::text::lemma_parse_decimal(j as nat);
            assert(spec_output_file_name(prefix, b).len() > spec_output_file_name(prefix, a).len());
        },
        (None, None) => {},
    }
}

/// Different augmentations of one image get different prefixes.
pub proof fn lemma_augmentation_prefixes_distinct(prefix: Seq<char>, i: nat, j: nat)
    requires
        i != j,
    ensures
        spec_augmentation_prefix(prefix, i) != spec_augmentation_prefix(prefix, j),
{
    if spec_augmentation_prefix(prefix, i) == spec_augmentation_prefix(prefix, j) {
        assert(prefix + "-aug-"@ + decimal(i) + Seq::<char>::empty() =~= spec_augmentation_prefix(prefix, i));
        assert(prefix + "-aug-"@ + decimal(j) + Seq::<char>::empty() =~= spec_augmentation_prefix(prefix, j));
        lemma_strip_affixes(prefix + "-aug-"@, decimal(i), decimal(j), Seq::empty());
        lemma_decimal_injective(i, j);
    }
}

} // verus!
