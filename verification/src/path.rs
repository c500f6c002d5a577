//! Completion of command and file names. The names come from the file
//! system, read by the caller; this module filters, merges and orders them.
use vstd::prelude::*;
use vstd::utf8::{
    encode_scalar, encode_utf8, encode_utf8_first_scalar, encode_utf8_valid_utf8, is_char_boundary,
    is_char_boundary_iff_not_is_continuation_byte, is_char_boundary_start_end_of_seq, pop_first_scalar,
    length_of_first_scalar, valid_utf8, valid_utf8_split,
};
use crate::order::{
    chars_less, chars_prefix, is_prefix, lemma_less_irreflexive, lemma_less_total,
    lemma_less_transitive, seq_less, sorted, strictly_sorted,
};
use crate::text::{chars_eq_str, chars_of};
use crate::tokenizer::strings_view;

verus! {

/// The names that start with `p`, in their order.
pub open spec fn with_prefix(p: Seq<char>, names: Seq<Seq<char>>) -> Seq<Seq<char>>
    decreases names.len(),
{
    if names.len() == 0 {
        Seq::empty()
    } else {
        let r = with_prefix(p, names.drop_last());
        if is_prefix(p, names.last()) {
            r.push(names.last())
        } else {
            r
        }
    }
}

/// The view of a list of string slices.
pub open spec fn strs_view(v: Seq<&str>) -> Seq<Seq<char>> {
    v.map_values(|s: &str| s@)
}

proof fn lemma_with_prefix_contains(p: Seq<char>, names: Seq<Seq<char>>, x: Seq<char>)
    ensures
        with_prefix(p, names).contains(x) <==> is_prefix(p, x) && names.contains(x),
    decreases names.len(),
{
    if names.len() > 0 {
        let d = names.drop_last();
        lemma_with_prefix_contains(p, d, x);
        if names.contains(x) {
            let i = choose|i: int| 0 <= i < names.len() && names[i] == x;
            if i < names.len() - 1 {
                assert(d[i] == x);
            }
        }
        if d.contains(x) {
            let i = choose|i: int| 0 <= i < d.len() && d[i] == x;
            assert(names[i] == x);
        }
        let r = with_prefix(p, d);
        if is_prefix(p, names.last()) {
            if r.push(names.last()).contains(x) {
                let i = choose|i: int| 0 <= i < r.len() + 1 && r.push(names.last())[i] == x;
                if i < r.len() {
                    assert(r[i] == x);
                }
            }
            if r.contains(x) {
                let i = choose|i: int| 0 <= i < r.len() && r[i] == x;
                assert(r.push(names.last())[i] == x);
            }
            if x == names.last() {
                assert(r.push(names.last())[r.len() as int] == x);
            }
        }
    }
}

proof fn lemma_with_prefix_multiset(p: Seq<char>, names: Seq<Seq<char>>, k: int)
    requires
        0 <= k < names.len(),
    ensures
        with_prefix(p, names.take(k + 1)) == if is_prefix(p, names[k]) {
            with_prefix(p, names.take(k)).push(names[k])
        } else {
            with_prefix(p, names.take(k))
        },
{
    assert(names.take(k + 1).drop_last() =~= names.take(k));
}

/// Inserts a name into a strictly sorted list, unless it is there already.
fn insert_unique(r: &mut Vec<String>, x: String)
    requires
        strictly_sorted(strings_view(old(r)@)),
    ensures
        strictly_sorted(strings_view(final(r)@)),
        forall|y: Seq<char>| #[trigger] strings_view(final(r)@).contains(y) <==> (strings_view(
            old(r)@,
        ).contains(y) || y == x@),
{
    let ghost old_v = strings_view(r@);
    let xc = chars_of(x.as_str());
    let mut k: usize = 0;
    while k < r.len() && chars_less(&chars_of(r[k].as_str()), &xc)
        invariant
            k <= r.len(),
            strings_view(r@) == old_v,
            xc@ == x@,
            forall|i: int| 0 <= i < k ==> seq_less(#[trigger] old_v[i], x@),
        decreases r.len() - k,
    {
        k = k + 1;
    }
    if k < r.len() && chars_eq_str(&xc, r[k].as_str()) {
        assert(old_v[k as int] == x@);
        assert forall|y: Seq<char>| #[trigger] strings_view(r@).contains(y) <==> (old_v.contains(y)
            || y == x@) by {
            if y == x@ {
                assert(old_v[k as int] == y);
            }
        }
        return;
    }
    proof {
        if k < r.len() {
            lemma_less_total(old_v[k as int], x@);
        }
    }
    let ghost xv = x@;
    r.insert(k, x);
    let ghost new_v = strings_view(r@);
    assert(new_v =~= old_v.insert(k as int, xv));
    assert forall|i: int, j: int| 0 <= i < j < new_v.len() implies seq_less(
        #[trigger] new_v[i],
        #[trigger] new_v[j],
    ) by {
        if j < k {
        } else if j == k {
        } else if i < k {
            assert(seq_less(old_v[i], xv));
            if i + 1 < j {
                assert(new_v[j] == old_v[j - 1]);
            }
            if j - 1 > k {
                assert(seq_less(old_v[k as int], old_v[j - 1]));
                lemma_less_transitive(xv, old_v[k as int], old_v[j - 1]);
            }
            lemma_less_transitive(old_v[i], xv, old_v[j - 1]);
        } else if i == k {
            if j - 1 > k {
                assert(seq_less(old_v[k as int], old_v[j - 1]));
                lemma_less_transitive(xv, old_v[k as int], old_v[j - 1]);
            }
        } else {
            assert(new_v[i] == old_v[i - 1]);
            assert(new_v[j] == old_v[j - 1]);
        }
    }
    assert forall|y: Seq<char>| #[trigger] new_v.contains(y) <==> (old_v.contains(y) || y == xv) by {
        if new_v.contains(y) {
            let i = choose|i: int| 0 <= i < new_v.len() && new_v[i] == y;
            if i < k {
                assert(old_v[i] == y);
            } else if i > k {
                assert(old_v[i - 1] == y);
            }
        }
        if old_v.contains(y) {
            let i = choose|i: int| 0 <= i < old_v.len() && old_v[i] == y;
            if i < k {
                assert(new_v[i] == y);
            } else {
                assert(new_v[i + 1] == y);
            }
        }
        if y == xv {
            assert(new_v[k as int] == y);
        }
    }
}

/// Inserts a name into a sorted list after the names that do not sort
/// after it.
fn insert_sorted(r: &mut Vec<String>, x: String)
    requires
        sorted(strings_view(old(r)@)),
    ensures
        sorted(strings_view(final(r)@)),
        strings_view(final(r)@).to_multiset() == strings_view(old(r)@).to_multiset().insert(x@),
{
    let ghost old_v = strings_view(r@);
    let xc = chars_of(x.as_str());
    let mut k: usize = 0;
    while k < r.len() && !chars_less(&xc, &chars_of(r[k].as_str()))
        invariant
            k <= r.len(),
            strings_view(r@) == old_v,
            xc@ == x@,
            forall|i: int| 0 <= i < k ==> !seq_less(x@, #[trigger] old_v[i]),
        decreases r.len() - k,
    {
        k = k + 1;
    }
    let ghost xv = x@;
    r.insert(k, x);
    let ghost new_v = strings_view(r@);
    assert(new_v =~= old_v.insert(k as int, xv));
    assert forall|i: int, j: int| 0 <= i < j < new_v.len() implies !seq_less(
        #[trigger] new_v[j],
        #[trigger] new_v[i],
    ) by {
        if j < k {
        } else if j == k {
            // new_v[i] == old_v[i] and !(x < old_v[i]).
        } else if i < k {
            // x < old_v[k] and old_v[k] does not sort before old_v[j - 1].
            assert(new_v[j] == old_v[j - 1]);
            if seq_less(old_v[j - 1], old_v[i]) {
                lemma_less_total(old_v[k as int], old_v[j - 1]);
                lemma_less_total(xv, old_v[i]);
                if j - 1 > k {
                    if old_v[k as int] == old_v[j - 1] {
                        lemma_less_transitive(xv, old_v[k as int], old_v[i]);
                    } else {
                        lemma_less_transitive(xv, old_v[k as int], old_v[j - 1]);
                        lemma_less_transitive(xv, old_v[j - 1], old_v[i]);
                    }
                } else {
                    lemma_less_transitive(xv, old_v[j - 1], old_v[i]);
                }
            }
        } else if i == k {
            assert(new_v[j] == old_v[j - 1]);
            if seq_less(old_v[j - 1], xv) {
                lemma_less_total(old_v[k as int], old_v[j - 1]);
                if j - 1 > k {
                    if old_v[k as int] != old_v[j - 1] {
                        lemma_less_transitive(xv, old_v[k as int], old_v[j - 1]);
                    }
                }
                lemma_less_total(xv, old_v[j - 1]);
            }
        } else {
            assert(new_v[i] == old_v[i - 1]);
            assert(new_v[j] == old_v[j - 1]);
        }
    }
    proof {
        assert(new_v.remove(k as int) =~= old_v);
        new_v.to_multiset_ensures();
        assert(new_v.to_multiset().count(xv) > 0) by {
            assert(new_v[k as int] == xv);
        }
        assert(new_v.to_multiset() =~= old_v.to_multiset().insert(xv));
    }
}

/// The candidates for completing a command name: the builtins and the
/// executables found on the search path that start with `prefix`, each
/// once, in sorted order.
pub fn complete_command(prefix: &str, builtins: &[&str], path_names: &[String]) -> (r: Vec<String>)
    ensures
        strictly_sorted(strings_view(r@)),
        forall|x: Seq<char>| #[trigger] strings_view(r@).contains(x) <==> (is_prefix(prefix@, x) && (
        strs_view(builtins@).contains(x) || strings_view(path_names@).contains(x))),
{
    let pc = chars_of(prefix);
    let mut out: Vec<String> = Vec::new();
    let ghost bv = strs_view(builtins@);
    let ghost pv = strings_view(path_names@);
    let ghost all = bv + pv;
    let mut i: usize = 0;
    assert(strings_view(out@) =~= Seq::<Seq<char>>::empty());
    while i < builtins.len()
        invariant
            i <= builtins.len(),
            pc@ == prefix@,
            bv == strs_view(builtins@),
            strictly_sorted(strings_view(out@)),
            forall|x: Seq<char>| #[trigger] strings_view(out@).contains(x) <==> with_prefix(prefix@, bv.take(i as int)).contains(x),
        decreases builtins.len() - i,
    {
        let b = builtins[i];
        proof {
            lemma_with_prefix_multiset(prefix@, bv, i as int);
        }
        let ghost before = with_prefix(prefix@, bv.take(i as int));
        if chars_prefix(&pc, &chars_of(b)) {
            insert_unique(&mut out, b.to_owned());
            assert forall|x: Seq<char>| #[trigger] before.push(b@).contains(x) <==> (before.contains(x) || x == b@) by {
                if before.push(b@).contains(x) {
                    let j = choose|j: int| 0 <= j < before.len() + 1 && before.push(b@)[j] == x;
                    if j < before.len() {
                        assert(before[j] == x);
                    }
                }
                if before.contains(x) {
                    let j = choose|j: int| 0 <= j < before.len() && before[j] == x;
                    assert(before.push(b@)[j] == x);
                }
                if x == b@ {
                    assert(before.push(b@)[before.len() as int] == x);
                }
            }
        }
        i = i + 1;
    }
    assert(bv.take(builtins.len() as int) =~= bv);
    assert(all.take(bv.len() as int) =~= bv);
    let mut j: usize = 0;
    while j < path_names.len()
        invariant
            j <= path_names.len(),
            pc@ == prefix@,
            bv == strs_view(builtins@),
            pv == strings_view(path_names@),
            all == bv + pv,
            strictly_sorted(strings_view(out@)),
            forall|x: Seq<char>| #[trigger] strings_view(out@).contains(x) <==> with_prefix(
                prefix@,
                all.take(bv.len() + j),
            ).contains(x),
        decreases path_names.len() - j,
    {
        let ghost k = bv.len() + j;
        assert(all[k] == path_names[j as int]@);
        proof {
            lemma_with_prefix_multiset(prefix@, all, k);
        }
        let ghost before = with_prefix(prefix@, all.take(k));
        let n = path_names[j].clone();
        if chars_prefix(&pc, &chars_of(n.as_str())) {
            let ghost nv = n@;
            insert_unique(&mut out, n);
            assert forall|x: Seq<char>| #[trigger] before.push(nv).contains(x) <==> (before.contains(x) || x == nv) by {
                if before.push(nv).contains(x) {
                    let m = choose|m: int| 0 <= m < before.len() + 1 && before.push(nv)[m] == x;
                    if m < before.len() {
                        assert(before[m] == x);
                    }
                }
                if before.contains(x) {
                    let m = choose|m: int| 0 <= m < before.len() && before[m] == x;
                    assert(before.push(nv)[m] == x);
                }
                if x == nv {
                    assert(before.push(nv)[before.len() as int] == x);
                }
            }
        }
        j = j + 1;
    }
    assert(all.take(bv.len() + path_names.len()) =~= all);
    assert forall|x: Seq<char>| #[trigger] strings_view(out@).contains(x) <==> (is_prefix(prefix@, x) && (
    bv.contains(x) || pv.contains(x))) by {
        lemma_with_prefix_contains(prefix@, all, x);
        if all.contains(x) {
            let m = choose|m: int| 0 <= m < all.len() && all[m] == x;
            if m < bv.len() {
                assert(bv[m] == x);
            } else {
                assert(pv[m - bv.len()] == x);
            }
        }
        if bv.contains(x) {
            let m = choose|m: int| 0 <= m < bv.len() && bv[m] == x;
            assert(all[m] == x);
        }
        if pv.contains(x) {
            let m = choose|m: int| 0 <= m < pv.len() && pv[m] == x;
            assert(all[bv.len() + m] == x);
        }
    }
    out
}

/// The candidates for completing a file name: the entries of a directory
/// that start with `prefix`, in sorted order.
pub fn complete_filename(prefix: &str, entries: &[String]) -> (r: Vec<String>)
    ensures
        sorted(strings_view(r@)),
        strings_view(r@).to_multiset() == with_prefix(prefix@, strings_view(entries@)).to_multiset(),
{
    let pc = chars_of(prefix);
    let mut out: Vec<String> = Vec::new();
    let ghost ev = strings_view(entries@);
    let mut i: usize = 0;
    assert(strings_view(out@) =~= Seq::<Seq<char>>::empty());
    assert(with_prefix(prefix@, ev.take(0)) =~= Seq::<Seq<char>>::empty());
    while i < entries.len()
        invariant
            i <= entries.len(),
            pc@ == prefix@,
            ev == strings_view(entries@),
            sorted(strings_view(out@)),
            strings_view(out@).to_multiset() == with_prefix(prefix@, ev.take(i as int)).to_multiset(),
        decreases entries.len() - i,
    {
        proof {
            lemma_with_prefix_multiset(prefix@, ev, i as int);
        }
        let ghost before = with_prefix(prefix@, ev.take(i as int));
        let n = entries[i].clone();
        if chars_prefix(&pc, &chars_of(n.as_str())) {
            let ghost nv = n@;
            insert_sorted(&mut out, n);
            proof {
                before.to_multiset_ensures();
            }
        }
        i = i + 1;
    }
    assert(ev.take(entries.len() as int) =~= ev);
    out
}

/// The bytes of a string.
pub open spec fn bytes_of(s: Seq<char>) -> Seq<u8> {
    encode_utf8(s)
}

/// Encoding a concatenation concatenates the encodings, and the encoding
/// of the first part ends at a character boundary of the whole.
pub proof fn lemma_bytes_of_concat(p: Seq<char>, r: Seq<char>)
    ensures
        bytes_of(p + r) == bytes_of(p) + bytes_of(r),
        is_char_boundary(bytes_of(p + r), bytes_of(p).len() as int),
    decreases p.len(),
{
    let pr = p + r;
    encode_utf8_valid_utf8(pr);
    if p.len() == 0 {
        assert(pr =~= r);
        assert(bytes_of(p) + bytes_of(r) =~= bytes_of(r));
    } else {
        assert(pr.drop_first() =~= p.drop_first() + r);
        assert(pr[0] == p[0]);
        lemma_bytes_of_concat(p.drop_first(), r);
        let head = encode_scalar(p[0] as u32);
        assert(bytes_of(pr) == head + bytes_of(pr.drop_first()));
        assert(bytes_of(p) == head + bytes_of(p.drop_first()));
        assert(bytes_of(pr) =~= bytes_of(p) + bytes_of(r));
        encode_utf8_first_scalar(pr);
        let b = bytes_of(pr);
        assert(pop_first_scalar(b) =~= bytes_of(pr.drop_first()));
    }
}

/// The UTF-8 encodings of a list of strings.
pub open spec fn all_bytes(v: Seq<Seq<char>>) -> Seq<Seq<u8>> {
    v.map_values(|s: Seq<char>| bytes_of(s))
}

/// `r` is the length of the longest prefix that all the byte strings
/// share: no string is shorter, all agree with the first up to `r`, and
/// `r` ends the first string or some string differs from it there (or
/// ends there). For no strings it is 0.
pub open spec fn is_common_prefix_len(bs: Seq<Seq<u8>>, r: int) -> bool {
    if bs.len() == 0 {
        r == 0
    } else {
        &&& 0 <= r
        &&& forall|i: int| 0 <= i < bs.len() ==> r <= (#[trigger] bs[i]).len() && bs[i].subrange(0, r)
            == bs[0].subrange(0, r)
        &&& (r == bs[0].len() || exists|i: int| 0 <= i < bs.len() && (r == (#[trigger] bs[i]).len() || bs[i][r] != bs[0][r]))
    }
}

/// Every byte string is at least `r` long and agrees with the first one
/// on its first `r` bytes.
pub open spec fn all_start_with(bs: Seq<Seq<u8>>, r: int) -> bool {
    forall|i: int| 0 <= i < bs.len() ==> r <= (#[trigger] bs[i]).len() && bs[i].subrange(0, r)
        == bs[0].subrange(0, r)
}

/// `r` is the length of the longest prefix of the first string that ends
/// between two of its characters and with which every string starts; 0 for
/// no strings.
pub open spec fn is_common_prefix_boundary(bs: Seq<Seq<u8>>, r: int) -> bool {
    if bs.len() == 0 {
        r == 0
    } else {
        &&& is_char_boundary(bs[0], r)
        &&& all_start_with(bs, r)
        &&& forall|r2: int| r < r2 && #[trigger] is_char_boundary(bs[0], r2) ==> !all_start_with(bs, r2)
    }
}

/// At most one length has the property of `is_common_prefix_boundary`.
pub proof fn lemma_common_prefix_boundary_unique(bs: Seq<Seq<u8>>, r1: int, r2: int)
    requires
        is_common_prefix_boundary(bs, r1),
        is_common_prefix_boundary(bs, r2),
    ensures
        r1 == r2,
{
}

/// The length in bytes of the longest prefix that all the given strings
/// share and that ends between two characters of the first string; 0 for
/// no strings. It is a valid index for slicing the first string, and every
/// string starts with the first string's text up to it.
pub fn longest_common_prefix(matches: &[String]) -> (r: usize)
    ensures
        is_common_prefix_boundary(all_bytes(strings_view(matches@)), r as int),
{
    if matches.len() == 0 {
        assert(all_bytes(strings_view(matches@)).len() == 0);
        return 0;
    }
    let first = matches[0].as_str().as_bytes();
    let ghost f = bytes_of(matches@[0]@);
    assert(first@ == f);
    let mut acc: usize = first.len();
    let mut i: usize = 1;
    while i < matches.len()
        invariant
            1 <= i <= matches.len(),
            first@ == bytes_of(matches@[0]@),
            acc <= first@.len(),
            forall|j: int| 0 <= j < i ==> acc <= bytes_of(#[trigger] matches@[j]@).len() && bytes_of(
                matches@[j]@,
            ).subrange(0, acc as int) == first@.subrange(0, acc as int),
            acc == first@.len() || exists|j: int| 0 <= j < i && ({
                let b = bytes_of(#[trigger] matches@[j]@);
                acc == b.len() || b[acc as int] != first@[acc as int]
            }),
        decreases matches.len() - i,
    {
        let s = matches[i].as_str().as_bytes();
        let ghost sb = bytes_of(matches@[i as int]@);
        assert(s@ == sb);
        let mut k: usize = 0;
        while k < acc && k < s.len() && first[k] == s[k]
            invariant
                k <= acc,
                k <= s@.len(),
                acc <= first@.len(),
                forall|m: int| 0 <= m < k ==> s@[m] == first@[m],
            decreases acc - k,
        {
            k = k + 1;
        }
        assert(sb.subrange(0, k as int) =~= first@.subrange(0, k as int));
        assert forall|j: int| 0 <= j < i + 1 implies k <= bytes_of(#[trigger] matches@[j]@).len()
            && bytes_of(matches@[j]@).subrange(0, k as int) == first@.subrange(0, k as int) by {
            if j < i {
                let b = bytes_of(matches@[j]@);
                assert(b.subrange(0, k as int) =~= b.subrange(0, acc as int).subrange(0, k as int));
                assert(first@.subrange(0, k as int) =~= first@.subrange(0, acc as int).subrange(0, k as int));
            }
        }
        if k < acc {
            assert(k == sb.len() || sb[k as int] != first@[k as int]);
            assert(({
                let b = bytes_of(matches@[i as int]@);
                k == b.len() || b[k as int] != first@[k as int]
            }));
        }
        acc = k;
        i = i + 1;
    }
    let ghost bs = all_bytes(strings_view(matches@));
    proof {
        assert forall|j: int| 0 <= j < bs.len() implies acc <= (#[trigger] bs[j]).len() && bs[j].subrange(0, acc as int) == bs[0].subrange(0, acc as int) by {
            assert(bs[j] == bytes_of(matches@[j]@));
        }
        if acc != first@.len() {
            let j = choose|j: int| 0 <= j < matches@.len() && ({
                let b = bytes_of(#[trigger] matches@[j]@);
                acc == b.len() || b[acc as int] != first@[acc as int]
            });
            assert(bs[j] == bytes_of(matches@[j]@));
        }
        assert(is_common_prefix_len(bs, acc as int));
        encode_utf8_valid_utf8(matches@[0]@);
        is_char_boundary_start_end_of_seq(first@);
    }
    // Back off to the start of the character that holds byte `acc`.
    let mut r: usize = acc;
    while r > 0 && r < first.len() && 0x80 <= first[r] && first[r] <= 0xbf
        invariant
            r <= acc <= first@.len(),
            first@ == bs[0],
            valid_utf8(first@),
            forall|b: int| r < b <= acc ==> !#[trigger] is_char_boundary(first@, b),
        decreases r,
    {
        proof {
            is_char_boundary_iff_not_is_continuation_byte(first@, r as int);
        }
        r = r - 1;
    }
    proof {
        if 0 < r < first@.len() {
            is_char_boundary_iff_not_is_continuation_byte(first@, r as int);
        }
        assert(is_char_boundary(bs[0], r as int));
        assert forall|j: int| 0 <= j < bs.len() implies r <= (#[trigger] bs[j]).len() && bs[j].subrange(0, r as int) == bs[0].subrange(0, r as int) by {
            assert(bs[j].subrange(0, r as int) =~= bs[j].subrange(0, acc as int).subrange(0, r as int));
            assert(bs[0].subrange(0, r as int) =~= bs[0].subrange(0, acc as int).subrange(0, r as int));
        }
        assert forall|r2: int| r < r2 && #[trigger] is_char_boundary(bs[0], r2) implies !all_start_with(bs, r2) by {
            if all_start_with(bs, r2) {
                assert(r2 > acc);
                assert(r2 <= bs[0].len());
                if acc != bs[0].len() {
                    let j = choose|j: int| 0 <= j < bs.len() && (acc == (#[trigger] bs[j]).len() || bs[j][acc as int] != bs[0][acc as int]);
                    assert(r2 <= bs[j].len());
                    assert(bs[j].subrange(0, r2)[acc as int] == bs[0].subrange(0, r2)[acc as int]);
                }
            }
        }
    }
    r
}

/// Where a well-formed byte string continues another well-formed one, the
/// join falls between two characters.
proof fn lemma_valid_prefix_boundary(x: Seq<u8>, y: Seq<u8>)
    requires
        valid_utf8(x),
        valid_utf8(x + y),
    ensures
        is_char_boundary(x + y, x.len() as int),
    decreases x.len(),
{
    let xy = x + y;
    if x.len() > 0 {
        let n = length_of_first_scalar(x);
        assert(xy[0] == x[0]);
        assert(length_of_first_scalar(xy) == n);
        assert(n <= x.len());
        assert(pop_first_scalar(xy) =~= pop_first_scalar(x) + y);
        lemma_pop_first_scalar_shorter(x);
        lemma_valid_prefix_boundary(pop_first_scalar(x), y);
    }
}

proof fn lemma_pop_first_scalar_shorter(x: Seq<u8>)
    requires
        x.len() > 0,
        valid_utf8(x),
    ensures
        pop_first_scalar(x).len() < x.len(),
{
}

/// Strings that share their first `r` bytes, where `r` ends a character of
/// one of them, have a character boundary there too.
proof fn lemma_shared_boundary(a: Seq<char>, b: Seq<char>, r: int)
    requires
        r <= bytes_of(a).len(),
        r <= bytes_of(b).len(),
        bytes_of(a).subrange(0, r) == bytes_of(b).subrange(0, r),
        is_char_boundary(bytes_of(a), r),
    ensures
        is_char_boundary(bytes_of(b), r),
{
    let ba = bytes_of(a);
    let bb = bytes_of(b);
    encode_utf8_valid_utf8(a);
    encode_utf8_valid_utf8(b);
    valid_utf8_split(ba, r);
    let x = bb.subrange(0, r);
    assert(x == ba.subrange(0, r));
    assert(x + bb.subrange(r, bb.len() as int) =~= bb);
    lemma_valid_prefix_boundary(x, bb.subrange(r, bb.len() as int));
}

/// The common prefix of completion candidates does not depend on their
/// order or on repetitions: lists that hold the same strings have the same
/// common prefix.
pub proof fn law_common_prefix_order_free(ss: Seq<Seq<char>>, ts: Seq<Seq<char>>, r: int)
    requires
        forall|i: int| 0 <= i < ts.len() ==> ss.contains(#[trigger] ts[i]),
        forall|i: int| 0 <= i < ss.len() ==> ts.contains(#[trigger] ss[i]),
        is_common_prefix_boundary(all_bytes(ss), r),
    ensures
        is_common_prefix_boundary(all_bytes(ts), r),
{
    let bs = all_bytes(ss);
    let cs = all_bytes(ts);
    if ss.len() == 0 {
        if ts.len() > 0 {
            assert(ss.contains(ts[0]));
        }
        return;
    }
    assert(ts.contains(ss[0]));
    let j0 = choose|j: int| 0 <= j < ts.len() && ts[j] == ss[0];
    let i0 = choose|i: int| 0 <= i < ss.len() && ss[i] == ts[0];
    assert(cs[j0] == bs[0]);
    assert(cs[0] == bs[i0]);
    // Every string of one list starts as the first of the other does.
    assert forall|k: int| all_start_with(bs, k) implies all_start_with(cs, k) by {
        assert(k <= bs[i0].len() && bs[i0].subrange(0, k) == bs[0].subrange(0, k));
        assert forall|j: int| 0 <= j < cs.len() implies k <= (#[trigger] cs[j]).len() && cs[j].subrange(0, k)
            == cs[0].subrange(0, k) by {
            assert(ss.contains(ts[j]));
            let i = choose|i: int| 0 <= i < ss.len() && ss[i] == ts[j];
            assert(cs[j] == bs[i]);
            assert(k <= bs[i].len() && bs[i].subrange(0, k) == bs[0].subrange(0, k));
        }
    }
    assert forall|k: int| all_start_with(cs, k) implies all_start_with(bs, k) by {
        assert(k <= cs[j0].len() && cs[j0].subrange(0, k) == cs[0].subrange(0, k));
        assert forall|i: int| 0 <= i < bs.len() implies k <= (#[trigger] bs[i]).len() && bs[i].subrange(0, k)
            == bs[0].subrange(0, k) by {
            assert(ts.contains(ss[i]));
            let j = choose|j: int| 0 <= j < ts.len() && ts[j] == ss[i];
            assert(bs[i] == cs[j]);
            assert(k <= cs[j].len() && cs[j].subrange(0, k) == cs[0].subrange(0, k));
        }
    }
    assert(all_start_with(bs, r));
    assert(all_start_with(cs, r));
    assert(r <= bs[i0].len() && bs[i0].subrange(0, r) == bs[0].subrange(0, r));
    lemma_shared_boundary(ss[0], ts[0], r);
    assert forall|r2: int| r < r2 && #[trigger] is_char_boundary(cs[0], r2) implies !all_start_with(cs, r2) by {
        if all_start_with(cs, r2) {
            assert(all_start_with(bs, r2));
            assert(r2 <= cs[j0].len() && cs[j0].subrange(0, r2) == cs[0].subrange(0, r2));
            lemma_shared_boundary(ts[0], ss[0], r2);
        }
    }
}

/// Adding a candidate never lengthens the common prefix.
pub proof fn law_common_prefix_shrinks(ss: Seq<Seq<char>>, x: Seq<char>, r: int, r2: int)
    requires
        ss.len() > 0,
        is_common_prefix_boundary(all_bytes(ss), r),
        is_common_prefix_boundary(all_bytes(ss.push(x)), r2),
    ensures
        r2 <= r,
{
    let bs = all_bytes(ss);
    let cs = all_bytes(ss.push(x));
    assert(cs[0] == bs[0]);
    assert forall|i: int| 0 <= i < bs.len() implies r2 <= (#[trigger] bs[i]).len() && bs[i].subrange(0, r2)
        == bs[0].subrange(0, r2) by {
        assert(cs[i] == bs[i]);
    }
    assert(all_start_with(bs, r2));
}

} // verus!
