//! Which files of a directory are annotations, and in which order they are
//! processed.
use vstd::prelude::*;

verus! {

/// The position of the last `.` in `name`, or `-1` when there is none.
pub open spec fn last_dot(name: Seq<u8>) -> int
    decreases name.len(),
{
    if name.len() == 0 {
        -1
    } else if name.last() == 46u8 {
        name.len() - 1
    } else {
        last_dot(name.drop_last())
    }
}

/// The file name has the extension `json` as `Path::extension` reads it:
/// the part after the last `.`, where a name without `.`, or whose only `.`
/// is its first character, has no extension.
pub open spec fn has_json_extension(name: Seq<u8>) -> bool {
    let d = last_dot(name);
    d > 0 && name.skip(d + 1) == seq![106u8, 115u8, 111u8, 110u8]
}

proof fn lemma_last_dot(name: Seq<u8>)
    ensures
        -1 <= last_dot(name) < name.len(),
        last_dot(name) >= 0 ==> name[last_dot(name)] == 46u8,
        forall|j: int| last_dot(name) < j < name.len() ==> name[j] != 46u8,
    decreases name.len(),
{
    if name.len() > 0 && name.last() != 46u8 {
        lemma_last_dot(name.drop_last());
        assert forall|j: int| last_dot(name) < j < name.len() implies name[j] != 46u8 by {
            if j < name.len() - 1 {
                assert(name.drop_last()[j] == name[j]);
            }
        }
        if last_dot(name) >= 0 {
            assert(name.drop_last()[last_dot(name)] == name[last_dot(name)]);
        }
    }
}

/// A file name has the extension `json` exactly when it ends with `.json`
/// and something comes before that `.`; so `<stem>.json` has it for every
/// non-empty stem, however long, and `.json` alone does not.
pub proof fn lemma_json_extension(name: Seq<u8>, stem: Seq<u8>)
    ensures
        has_json_extension(name) <==> (name.len() >= 6 && name.subrange(name.len() - 5, name.len() as int)
            == seq![46u8, 106u8, 115u8, 111u8, 110u8]),
        has_json_extension(stem + seq![46u8, 106u8, 115u8, 111u8, 110u8]) <==> stem.len() > 0,
{
    assert forall|nm: Seq<u8>| #[trigger] has_json_extension(nm) <==> (nm.len() >= 6 && nm.subrange(
        nm.len() - 5,
        nm.len() as int,
    ) == seq![46u8, 106u8, 115u8, 111u8, 110u8]) by {
        lemma_last_dot(nm);
        let d = last_dot(nm);
        let json = seq![106u8, 115u8, 111u8, 110u8];
        let dot_json = seq![46u8, 106u8, 115u8, 111u8, 110u8];
        if has_json_extension(nm) {
            assert(nm.skip(d + 1).len() == 4);
            assert(nm.subrange(nm.len() - 5, nm.len() as int) =~= dot_json) by {
                assert forall|k: int| 0 <= k < 5 implies nm.subrange(nm.len() - 5, nm.len() as int)[k]
                    == dot_json[k] by {
                    if k > 0 {
                        assert(nm.skip(d + 1)[k - 1] == nm[d + k]);
                    }
                }
            }
        }
        if nm.len() >= 6 && nm.subrange(nm.len() - 5, nm.len() as int) == dot_json {
            let e = nm.len() - 5;
            assert(nm.subrange(nm.len() - 5, nm.len() as int)[0] == nm[e]);
            assert forall|j: int| e < j < nm.len() implies nm[j] != 46u8 by {
                assert(nm.subrange(nm.len() - 5, nm.len() as int)[j - e] == nm[j]);
            }
            assert(d == e);
            assert(nm.skip(d + 1) =~= json) by {
                assert forall|k: int| 0 <= k < 4 implies nm.skip(d + 1)[k] == json[k] by {
                    assert(nm.subrange(nm.len() - 5, nm.len() as int)[k + 1] == nm[d + 1 + k]);
                }
            }
        }
    }
    let full = stem + seq![46u8, 106u8, 115u8, 111u8, 110u8];
    assert(full.subrange(full.len() - 5, full.len() as int) =~= seq![46u8, 106u8, 115u8, 111u8, 110u8]);
    assert(has_json_extension(full) <==> (full.len() >= 6 && full.subrange(full.len() - 5, full.len() as int)
        == seq![46u8, 106u8, 115u8, 111u8, 110u8]));
    assert(has_json_extension(name) <==> (name.len() >= 6 && name.subrange(name.len() - 5, name.len() as int)
        == seq![46u8, 106u8, 115u8, 111u8, 110u8]));
}

/// `a` comes before `b` or equals it, comparing bytes lexicographically (a
/// proper prefix comes first).
pub open spec fn bytes_le(a: Seq<u8>, b: Seq<u8>) -> bool
    decreases a.len(),
{
    if a.len() == 0 {
        true
    } else if b.len() == 0 {
        false
    } else if a[0] != b[0] {
        a[0] < b[0]
    } else {
        bytes_le(a.drop_first(), b.drop_first())
    }
}

/// The names are in ascending byte order.
pub open spec fn names_sorted(names: Seq<Vec<u8>>) -> bool {
    forall|i: int, j: int| 0 <= i < j < names.len() ==> bytes_le(#[trigger] names[i]@, #[trigger] names[j]@)
}

/// The names of `names` that have the extension `json`, in their order.
pub open spec fn json_names(names: Seq<Vec<u8>>) -> Seq<Vec<u8>>
    decreases names.len(),
{
    if names.len() == 0 {
        Seq::empty()
    } else if has_json_extension(names.last()@) {
        json_names(names.drop_last()).push(names.last())
    } else {
        json_names(names.drop_last())
    }
}

/// The annotation names among `names` are those, in their order, that end
/// with `.json` with something before that `.`.
pub proof fn lemma_json_names_filter(names: Seq<Vec<u8>>)
    ensures
        json_names(names) == names.filter(
            |nm: Vec<u8>|
                nm@.len() >= 6 && nm@.subrange(nm@.len() - 5, nm@.len() as int) == seq![
                    46u8,
                    106u8,
                    115u8,
                    111u8,
                    110u8,
                ],
        ),
    decreases names.len(),
{
    reveal(Seq::filter);
    if names.len() > 0 {
        lemma_json_names_filter(names.drop_last());
        lemma_json_extension(names.last()@, names.last()@);
    }
}

proof fn lemma_bytes_le_total(a: Seq<u8>, b: Seq<u8>)
    ensures
        bytes_le(a, b) || bytes_le(b, a),
    decreases a.len(),
{
    if a.len() > 0 && b.len() > 0 && a[0] == b[0] {
        lemma_bytes_le_total(a.drop_first(), b.drop_first());
    }
}

proof fn lemma_bytes_le_transitive(a: Seq<u8>, b: Seq<u8>, c: Seq<u8>)
    requires
        bytes_le(a, b),
        bytes_le(b, c),
    ensures
        bytes_le(a, c),
    decreases a.len(),
{
    if a.len() > 0 && b.len() > 0 && c.len() > 0 && a[0] == b[0] && b[0] == c[0] {
        lemma_bytes_le_transitive(a.drop_first(), b.drop_first(), c.drop_first());
    }
}

/// Whether `a` comes before `b` or equals it, in byte order.
pub fn names_in_order(a: &Vec<u8>, b: &Vec<u8>) -> (r: bool)
    ensures
        r == bytes_le(a@, b@),
{
    let mut i: usize = 0;
    assert(a@.skip(0) =~= a@);
    assert(b@.skip(0) =~= b@);
    while i < a.len()
        invariant
            i <= a@.len(),
            i <= b@.len(),
            bytes_le(a@, b@) == bytes_le(a@.skip(i as int), b@.skip(i as int)),
        decreases a@.len() - i,
    {
        if i >= b.len() {
            return false;
        }
        if a[i] != b[i] {
            return a[i] < b[i];
        }
        assert(a@.skip(i as int).drop_first() =~= a@.skip(i + 1));
        assert(b@.skip(i as int).drop_first() =~= b@.skip(i + 1));
        i = i + 1;
    }
    true
}

/// Whether the file name has the extension `json`: it ends with `.json`
/// and something comes before that `.`.
pub fn is_annotation_file(name: &Vec<u8>) -> (r: bool)
    ensures
        r == has_json_extension(name@),
        r <==> (name@.len() >= 6 && name@.subrange(name@.len() - 5, name@.len() as int) == seq![
            46u8,
            106u8,
            115u8,
            111u8,
            110u8,
        ]),
{
    proof {
        lemma_json_extension(name@, name@);
    }
    let n: usize = name.len();
    let mut i: usize = n;
    assert(name@.take(n as int) =~= name@);
    while i > 0
        invariant
            i <= n,
            n == name@.len(),
            last_dot(name@) == last_dot(name@.take(i as int)),
            has_json_extension(name@) <==> (name@.len() >= 6 && name@.subrange(
                name@.len() - 5,
                name@.len() as int,
            ) == seq![46u8, 106u8, 115u8, 111u8, 110u8]),
        decreases i,
    {
        if name[i - 1] == 46u8 {
            assert(name@.take(i as int).last() == 46u8);
            let dot: usize = i - 1;
            if dot == 0 {
                return false;
            }
            if n - dot != 5 {
                proof {
                    assert(name@.skip(dot + 1).len() != 4);
                }
                return false;
            }
            let r: bool = name[dot + 1] == 106u8 && name[dot + 2] == 115u8 && name[dot + 3] == 111u8
                && name[dot + 4] == 110u8;
            proof {
                if r {
                    assert(name@.skip(dot + 1) =~= seq![106u8, 115u8, 111u8, 110u8]);
                } else {
                    assert(name@.skip(dot + 1) != seq![106u8, 115u8, 111u8, 110u8]) by {
                        if name@.skip(dot + 1) == seq![106u8, 115u8, 111u8, 110u8] {
                            assert(name@.skip(dot + 1)[0] == name@[dot + 1]);
                            assert(name@.skip(dot + 1)[1] == name@[dot + 2]);
                            assert(name@.skip(dot + 1)[2] == name@[dot + 3]);
                            assert(name@.skip(dot + 1)[3] == name@[dot + 4]);
                        }
                    }
                }
            }
            return r;
        }
        assert(name@.take(i - 1) =~= name@.take(i as int).drop_last());
        i = i - 1;
    }
    false
}

/// The annotation files among the file names of a directory, in ascending
/// byte order of their names, so that every run processes them in the same
/// order.
pub fn select_annotation_files(names: Vec<Vec<u8>>) -> (r: Vec<Vec<u8>>)
    ensures
        names_sorted(r@),
        r@.to_multiset() == json_names(names@).to_multiset(),
        forall|i: int| 0 <= i < r@.len() ==> has_json_extension(#[trigger] r@[i]@),
        r@.to_multiset() == names@.filter(
            |nm: Vec<u8>|
                nm@.len() >= 6 && nm@.subrange(nm@.len() - 5, nm@.len() as int) == seq![
                    46u8,
                    106u8,
                    115u8,
                    111u8,
                    110u8,
                ],
        ).to_multiset(),
{
    broadcast use vstd::seq_lib::group_to_multiset_ensures;
    let ghost all = names@;
    let mut sorted: Vec<Vec<u8>> = Vec::new();
    for name in it: names
        invariant
            all == it.seq(),
            names_sorted(sorted@),
            sorted@.to_multiset() == json_names(all.take(it.index() as int)).to_multiset(),
            forall|i: int| 0 <= i < sorted@.len() ==> has_json_extension(#[trigger] sorted@[i]@),
    {
        let ghost k: int = it.index() as int;
        assert(all.take(k + 1).drop_last() =~= all.take(k));
        assert(all.take(k + 1).last() == name);
        let ghost prefix_before = json_names(all.take(k));
        if is_annotation_file(&name) {
            assert(json_names(all.take(k + 1)) == prefix_before.push(name));
            proof {
                prefix_before.to_multiset_ensures();
            }
            let mut pos: usize = 0;
            while pos < sorted.len() && names_in_order(&sorted[pos], &name)
                invariant
                    pos <= sorted@.len(),
                    forall|i: int| 0 <= i < pos ==> bytes_le(#[trigger] sorted@[i]@, name@),
                decreases sorted@.len() - pos,
            {
                pos = pos + 1;
            }
            let ghost before = sorted@;
            proof {
                if pos < before.len() {
                    lemma_bytes_le_total(before[pos as int]@, name@);
                }
            }
            sorted.insert(pos, name);
            proof {
                assert(sorted@ =~= before.insert(pos as int, name));
                assert forall|i: int, j: int| 0 <= i < j < sorted@.len() implies bytes_le(#[trigger] sorted@[i]@, #[trigger] sorted@[j]@) by {
                    if j < pos {
                        assert(sorted@[i] == before[i] && sorted@[j] == before[j]);
                    } else if j == pos {
                        assert(sorted@[i] == before[i]);
                    } else if i == pos {
                        assert(sorted@[j] == before[j - 1]);
                        if j - 1 > pos {
                            lemma_bytes_le_transitive(name@, before[pos as int]@, before[j - 1]@);
                        }
                    } else if i < pos {
                        assert(sorted@[i] == before[i] && sorted@[j] == before[j - 1]);
                    } else {
                        assert(sorted@[i] == before[i - 1] && sorted@[j] == before[j - 1]);
                    }
                }
                assert forall|i: int| 0 <= i < sorted@.len() implies has_json_extension(#[trigger] sorted@[i]@) by {
                    if i < pos {
                        assert(sorted@[i] == before[i]);
                    } else if i > pos {
                        assert(sorted@[i] == before[i - 1]);
                    }
                }
                vstd::seq_lib::to_multiset_insert(before, pos as int, name);
            }
        } else {
            assert(json_names(all.take(k + 1)) == prefix_before);
        }
    }
    assert(all.take(all.len() as int) =~= all);
    proof {
        lemma_json_names_filter(all);
    }
    sorted
}

} // verus!
