//! Which files of a plugin directory are plugins, and in what order they are loaded.

use vstd::prelude::*;
use vstd::slice::slice_subrange;

verus! {

/// Where a file name's extension begins: after its last dot, unless the name has no dot but its
/// first character.
pub open spec fn extension_start(name: Seq<u8>, upto: int) -> Option<int>
    decreases upto,
{
    if upto <= 1 {
        None
    } else if name[upto - 1] == 0x2e {
        Some(upto)
    } else {
        extension_start(name, upto - 1)
    }
}

/// The bytes are `lua`, in any case.
pub open spec fn is_lua(ext: Seq<u8>) -> bool {
    &&& ext.len() == 3
    &&& ext[0] == 0x6c || ext[0] == 0x4c
    &&& ext[1] == 0x75 || ext[1] == 0x55
    &&& ext[2] == 0x61 || ext[2] == 0x41
}

/// The file is a plugin by its name.
pub open spec fn is_plugin(name: Seq<u8>) -> bool {
    extension_start(name, name.len() as int) matches Some(at) && is_lua(name.skip(at))
}

/// Whether the file is a plugin by its name: its extension is `lua`, in any case.
pub fn is_plugin_name(name: &[u8]) -> (yes: bool)
    ensures
        yes == is_plugin(name@),
{
    let mut upto: usize = name.len();
    while upto > 1 && name[upto - 1] != 0x2e
        invariant
            upto <= name@.len(),
            extension_start(name@, upto as int) == extension_start(name@, name@.len() as int),
        decreases upto,
    {
        upto -= 1;
    }
    if upto <= 1 {
        return false;
    }
    let ext = slice_subrange(name, upto, name.len());
    assert(ext@ =~= name@.skip(upto as int));
    ext.len() == 3 && (ext[0] == 0x6c || ext[0] == 0x4c) && (ext[1] == 0x75 || ext[1] == 0x55) && (
    ext[2] == 0x61 || ext[2] == 0x41)
}

/// `a` comes before `b` in the order of bytes, or is `b`.
pub open spec fn not_after(a: Seq<u8>, b: Seq<u8>) -> bool
    decreases a.len(),
{
    if a.len() == 0 {
        true
    } else if b.len() == 0 {
        false
    } else if a[0] != b[0] {
        a[0] < b[0]
    } else {
        not_after(a.drop_first(), b.drop_first())
    }
}

fn precedes(a: &[u8], b: &[u8]) -> (yes: bool)
    ensures
        yes == not_after(a@, b@),
{
    let mut i: usize = 0;
    proof {
        assert(a@.skip(0) =~= a@);
        assert(b@.skip(0) =~= b@);
    }
    while i < a.len() && i < b.len() && a[i] == b[i]
        invariant
            i <= a@.len(),
            i <= b@.len(),
            not_after(a@.skip(i as int), b@.skip(i as int)) == not_after(a@, b@),
        decreases a@.len() - i,
    {
        assert(a@.skip(i as int).drop_first() =~= a@.skip(i + 1));
        assert(b@.skip(i as int).drop_first() =~= b@.skip(i + 1));
        i += 1;
    }
    if i >= a.len() {
        true
    } else if i >= b.len() {
        false
    } else {
        a[i] < b[i]
    }
}

proof fn lemma_order(a: Seq<u8>, b: Seq<u8>, c: Seq<u8>)
    ensures
        not_after(a, b) || not_after(b, a),
        not_after(a, b) && not_after(b, c) ==> not_after(a, c),
    decreases a.len(),
{
    if a.len() > 0 && b.len() > 0 {
        if a[0] == b[0] {
            if c.len() > 0 {
                lemma_order(a.drop_first(), b.drop_first(), c.drop_first());
            } else {
                lemma_order(a.drop_first(), b.drop_first(), c);
            }
        }
    }
}

/// The names, as byte strings.
pub open spec fn name_bytes(names: Seq<Vec<u8>>) -> Seq<Seq<u8>> {
    names.map_values(|n: Vec<u8>| n@)
}

/// The names that are plugins, in the order given.
pub open spec fn plugins_among(names: Seq<Seq<u8>>) -> Seq<Seq<u8>> {
    names.filter(|n: Seq<u8>| is_plugin(n))
}

pub open spec fn in_order(names: Seq<Seq<u8>>) -> bool {
    forall|i: int, j: int| 0 <= i <= j < names.len() ==> not_after(#[trigger] names[i], #[trigger] names[j])
}

/// The plugins among the files of a directory, in the order of their names, whatever the order in
/// which the directory lists them.
pub fn select_plugins(names: Vec<Vec<u8>>) -> (plugins: Vec<Vec<u8>>)
    ensures
        name_bytes(plugins@).to_multiset() == plugins_among(name_bytes(names@)).to_multiset(),
        in_order(name_bytes(plugins@)),
{
    let ghost all = name_bytes(names@);
    let mut names = names;
    let mut plugins: Vec<Vec<u8>> = Vec::new();
    let ghost mut done: Seq<Seq<u8>> = Seq::empty();
    proof {
        assert(name_bytes(plugins@) =~= Seq::empty());
        assert(plugins_among(Seq::<Seq<u8>>::empty()) =~= Seq::empty()) by {
            reveal(Seq::filter);
        }
        assert(all =~= name_bytes(names@) + done);
    }
    while names.len() > 0
        invariant
            all == name_bytes(names@) + done,
            name_bytes(plugins@).to_multiset() == plugins_among(done).to_multiset(),
            in_order(name_bytes(plugins@)),
        decreases names@.len(),
    {
        let ghost before_names = names@;
        match names.pop() {
            Some(name) => {
                proof {
                    let rest = name_bytes(names@);
                    assert(name_bytes(before_names) =~= rest.push(name@));
                    assert(all =~= rest + (seq![name@] + done));
                    lemma_filter_front(name@, done);
                }
                let ghost earlier = done;
                proof {
                    done = seq![name@] + done;
                }
                if is_plugin_name(name.as_slice()) {
                    insert_sorted(&mut plugins, name);
                    proof {
                        vstd::seq_lib::lemma_multiset_commutative(
                            seq![name@],
                            plugins_among(earlier),
                        );
                        broadcast use vstd::seq_lib::group_to_multiset_ensures;
                        assert(plugins_among(done) =~= seq![name@] + plugins_among(earlier));
                        assert(seq![name@] =~= Seq::<Seq<u8>>::empty().push(name@));
                        assert(seq![name@].to_multiset() =~= Seq::<Seq<u8>>::empty().to_multiset().insert(name@));
                        assert(name_bytes(plugins@).to_multiset() =~= plugins_among(
                            done,
                        ).to_multiset());
                    }
                }
            },
            None => {},
        }
    }
    assert(done =~= all);
    plugins
}

proof fn lemma_filter_front(name: Seq<u8>, rest: Seq<Seq<u8>>)
    ensures
        plugins_among(seq![name] + rest) == if is_plugin(name) {
            seq![name] + plugins_among(rest)
        } else {
            plugins_among(rest)
        },
    decreases rest.len(),
{
    reveal(Seq::filter);
    let f = |n: Seq<u8>| is_plugin(n);
    if rest.len() == 0 {
        assert(seq![name] + rest =~= seq![name]);
        assert(seq![name].drop_last() =~= Seq::empty());
        assert(Seq::<Seq<u8>>::empty().filter(f) =~= Seq::empty());
        assert(seq![name].last() == name);
        assert(seq![name].filter(f) =~= if is_plugin(name) { seq![name] } else { Seq::empty() });
        assert(rest.filter(f) =~= Seq::empty());
        assert(plugins_among(seq![name] + rest) =~= if is_plugin(name) {
            seq![name] + plugins_among(rest)
        } else {
            plugins_among(rest)
        });
    } else {
        lemma_filter_front(name, rest.drop_last());
        assert((seq![name] + rest).drop_last() =~= seq![name] + rest.drop_last());
        assert((seq![name] + rest).last() == rest.last());
        assert(plugins_among(seq![name] + rest) =~= if is_plugin(name) {
            seq![name] + plugins_among(rest)
        } else {
            plugins_among(rest)
        });
    }
}

/// Inserts a name at its place.
fn insert_sorted(names: &mut Vec<Vec<u8>>, name: Vec<u8>)
    requires
        in_order(name_bytes(old(names)@)),
    ensures
        in_order(name_bytes(final(names)@)),
        name_bytes(final(names)@).to_multiset() == name_bytes(old(names)@).to_multiset().insert(
            name@,
        ),
{
    let mut at: usize = 0;
    let ghost before = name_bytes(names@);
    while at < names.len() && precedes(names[at].as_slice(), name.as_slice())
        invariant
            at <= names@.len(),
            before == name_bytes(names@),
            forall|i: int| 0 <= i < at ==> not_after(#[trigger] before[i], name@),
        decreases names@.len() - at,
    {
        assert(before[at as int] == names@[at as int]@);
        at += 1;
    }
    proof {
        if at < names@.len() {
            assert(before[at as int] == names@[at as int]@);
            lemma_order(before[at as int], name@, name@);
        }
    }
    let ghost n = name@;
    let ghost held = names@;
    names.insert(at, name);
    proof {
        let after = name_bytes(names@);
        assert(after =~= before.insert(at as int, n));
        broadcast use vstd::seq_lib::group_to_multiset_ensures;
        assert forall|i: int, j: int| 0 <= i <= j < after.len() implies not_after(
            #[trigger] after[i],
            #[trigger] after[j],
        ) by {
            lemma_order(n, n, n);
            let a = if i < at { i } else { i - 1 };
            let b = if j < at { j } else { j - 1 };
            if i < at {
                assert(after[i] == before[i]);
                if j < at {
                    assert(after[j] == before[j]);
                } else if j > at {
                    assert(after[j] == before[j - 1]);
                }
            } else if i == at {
                if j > at {
                    assert(after[j] == before[j - 1]);
                    assert(not_after(before[at as int], before[j - 1]));
                    lemma_order(n, before[at as int], before[j - 1]);
                }
            } else {
                assert(after[i] == before[i - 1]);
                assert(after[j] == before[j - 1]);
            }
        }
    }
}

/// A byte as a lowercase letter, where it is a capital one.
pub open spec fn lowercase(b: u8) -> u8 {
    if 0x41 <= b <= 0x5a {
        (b + 0x20) as u8
    } else {
        b
    }
}

/// A name that ends in a dot and an extension without a dot is that of a plugin exactly if there is
/// something before the dot and the extension is `lua`, in any case. A name without a dot is none.
pub proof fn law_extension_makes_a_plugin(stem: Seq<u8>, ext: Seq<u8>)
    requires
        !ext.contains(0x2e),
    ensures
        is_plugin(stem + seq![0x2eu8] + ext) <==> stem.len() > 0 && ext.map_values(
            |b: u8| lowercase(b),
        ) == seq![0x6cu8, 0x75, 0x61],
        !is_plugin(ext),
{
    let name = stem + seq![0x2eu8] + ext;
    let lower = ext.map_values(|b: u8| lowercase(b));
    lemma_extension(name, stem.len() as int, name.len() as int);
    lemma_no_extension(ext, ext.len() as int);
    assert(name.skip(stem.len() as int + 1) =~= ext);
    if is_lua(ext) {
        assert(lower =~= seq![0x6cu8, 0x75, 0x61]);
    }
    if lower == seq![0x6cu8, 0x75, 0x61] {
        assert(lower.len() == 3);
        assert(lower[0] == 0x6c && lower[1] == 0x75 && lower[2] == 0x61);
        assert(lower[0] == lowercase(ext[0]) && lower[1] == lowercase(ext[1]) && lower[2]
            == lowercase(ext[2]));
    }
}

proof fn lemma_extension(name: Seq<u8>, dot: int, upto: int)
    requires
        0 <= dot < upto <= name.len(),
        name[dot] == 0x2e,
        forall|i: int| dot < i < name.len() ==> (#[trigger] name[i]) != 0x2e,
    ensures
        extension_start(name, upto) == if dot > 0 {
            Some(dot + 1)
        } else {
            None
        },
    decreases upto,
{
    if upto - 1 > dot {
        assert(name[upto - 1] != 0x2e);
        lemma_extension(name, dot, upto - 1);
    }
}

proof fn lemma_no_extension(name: Seq<u8>, upto: int)
    requires
        0 <= upto <= name.len(),
        !name.contains(0x2e),
    ensures
        extension_start(name, upto) is None,
    decreases upto,
{
    if upto > 1 {
        assert(name.contains(name[upto - 1]));
        lemma_no_extension(name, upto - 1);
    }
}

/// Names are ordered as in a dictionary: by the first byte in which they differ, and one that the
/// other begins with comes first.
pub proof fn law_names_are_in_dictionary_order(a: Seq<u8>, b: Seq<u8>, k: int)
    requires
        0 <= k <= a.len(),
        k <= b.len(),
        a.take(k) == b.take(k),
        k < a.len() && k < b.len() ==> a[k] != b[k],
    ensures
        not_after(a, b) <==> k == a.len() || (k < b.len() && a[k] < b[k]),
    decreases k,
{
    if k > 0 {
        assert(a.take(k)[0] == a[0] && b.take(k)[0] == b[0]);
        let x = a.drop_first().take(k - 1);
        let y = b.drop_first().take(k - 1);
        assert forall|i: int| 0 <= i < k - 1 implies #[trigger] x[i] == y[i] by {
            assert(a.take(k)[i + 1] == a[i + 1]);
            assert(b.take(k)[i + 1] == b[i + 1]);
            assert(a.take(k)[i + 1] == b.take(k)[i + 1]);
        }
        assert(x =~= y);
        assert(k < a.len() ==> a.drop_first()[k - 1] == a[k]);
        assert(k < b.len() ==> b.drop_first()[k - 1] == b[k]);
        law_names_are_in_dictionary_order(a.drop_first(), b.drop_first(), k - 1);
    }
}

} // verus!
