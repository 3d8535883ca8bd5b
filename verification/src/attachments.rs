//! Kinds of files attached to a brainstorming conversation.
use vstd::prelude::*;
use crate::style_guide::{spec_to_lowercase, to_lowercase};
use crate::text::{chars_of, owned, str_eq, substring, views};
use crate::page_files::indices;

verus! {

pub const DOCUMENT: &'static str = "document";
pub const OTHER: &'static str = "other";

/// Where the last path segment of `s[..i]` starts: just after its last `/`
/// or `\\`, or at 0 when it has none.
pub open spec fn segment_start(s: Seq<char>, i: int) -> int
    decreases i,
{
    if i <= 0 {
        0
    } else if s[i - 1] == '/' || s[i - 1] == '\\' {
        i
    } else {
        segment_start(s, i - 1)
    }
}

/// The file name at the end of a path: what follows its last `/` or `\\`.
pub open spec fn spec_file_name(path: Seq<char>) -> Seq<char> {
    path.skip(segment_start(path, path.len() as int))
}

/// The name under which a file is copied among the attachments: the last
/// segment of its path.
pub fn attachment_file_name(path: &str) -> (r: String)
    ensures
        r@ == spec_file_name(path@),
{
    let s = chars_of(path);
    let n = s.len();
    let mut i = n;
    while i > 0 && s[i - 1] != '/' && s[i - 1] != '\\'
        invariant
            0 <= i <= n,
            n == s@.len(),
            s@ == path@,
            segment_start(s@, n as int) == segment_start(s@, i as int),
        decreases i,
    {
        i = i - 1;
    }
    proof {
        assert(path@.skip(segment_start(path@, n as int)) =~= s@.subrange(i as int, n as int));
    }
    substring(s.as_slice(), i, n)
}

/// Only plain-text attachments (`txt`, `md`) are documents.
pub open spec fn spec_file_type(extension: Seq<char>) -> Seq<char> {
    if extension == "txt"@ || extension == "md"@ {
        DOCUMENT@
    } else {
        OTHER@
    }
}

/// The kind of an attachment, by its file extension.
pub fn get_file_type(extension: &str) -> (r: String)
    ensures
        r@ == spec_file_type(extension@),
{
    if str_eq(extension, "txt") || str_eq(extension, "md") {
        owned(DOCUMENT)
    } else {
        owned(OTHER)
    }
}


/// A text file attached to a project.
#[derive(Clone, Debug)]
pub struct AttachmentInfo {
    pub name: String,
    pub path: String,
    pub file_type: String,
}

/// The attachment for a file, when its extension, lower-cased, is `txt`
/// or `md`.
pub fn attachment_of(name: String, path: String, extension: &str) -> (r: Option<AttachmentInfo>)
    ensures
        match r {
            Some(a) => spec_file_type(spec_to_lowercase(extension@)) == DOCUMENT@ && a.name == name && a.path == path
                && a.file_type@ == DOCUMENT@,
            None => spec_file_type(spec_to_lowercase(extension@)) != DOCUMENT@,
        },
{
    let lower = to_lowercase(extension);
    proof {
        reveal_strlit("document");
        reveal_strlit("other");
        assert(DOCUMENT@.len() != OTHER@.len());
    }
    if str_eq(lower.as_str(), "txt") || str_eq(lower.as_str(), "md") {
        Some(AttachmentInfo { name, path, file_type: owned(DOCUMENT) })
    } else {
        None
    }
}

/// `a` comes no later than `b` in the order of `str::cmp`: the first
/// differing character decides, and a prefix comes first. (UTF-8 keeps the
/// order of code points, so comparing bytes and comparing characters
/// agree.)
pub open spec fn lex_le(a: Seq<char>, b: Seq<char>) -> bool
    decreases a.len(),
{
    if a.len() == 0 {
        true
    } else if b.len() == 0 {
        false
    } else if a[0] != b[0] {
        (a[0] as u32) < (b[0] as u32)
    } else {
        lex_le(a.drop_first(), b.drop_first())
    }
}

proof fn lemma_lex_le_from(a: Seq<char>, b: Seq<char>, i: int)
    requires
        0 <= i <= a.len(),
        i <= b.len(),
        a.take(i) == b.take(i),
    ensures
        lex_le(a, b) == lex_le(a.skip(i), b.skip(i)),
    decreases i,
{
    if i > 0 {
        assert(a[0] == a.take(i)[0]);
        assert(b[0] == b.take(i)[0]);
        assert(a.drop_first().take(i - 1) =~= a.take(i).drop_first());
        assert(b.drop_first().take(i - 1) =~= b.take(i).drop_first());
        lemma_lex_le_from(a.drop_first(), b.drop_first(), i - 1);
        assert(a.drop_first().skip(i - 1) =~= a.skip(i));
        assert(b.drop_first().skip(i - 1) =~= b.skip(i));
    } else {
        assert(a.skip(0) =~= a);
        assert(b.skip(0) =~= b);
    }
}

fn name_le(a: &str, b: &str) -> (r: bool)
    ensures
        r == lex_le(a@, b@),
{
    let x = chars_of(a);
    let y = chars_of(b);
    let mut i: usize = 0;
    while i < x.len() && i < y.len() && x[i] == y[i]
        invariant
            0 <= i <= x@.len(),
            i <= y@.len(),
            x@ == a@,
            y@ == b@,
            x@.take(i as int) == y@.take(i as int),
        decreases x@.len() - i,
    {
        proof {
            assert(x@.take(i + 1) =~= x@.take(i as int).push(x@[i as int]));
            assert(y@.take(i + 1) =~= y@.take(i as int).push(y@[i as int]));
        }
        i = i + 1;
    }
    proof {
        lemma_lex_le_from(x@, y@, i as int);
        let u = x@.skip(i as int);
        let v = y@.skip(i as int);
        if i < x@.len() && i < y@.len() {
            assert(u[0] == x@[i as int] && v[0] == y@[i as int]);
        }
    }
    if i == x.len() {
        true
    } else if i == y.len() {
        false
    } else {
        (x[i] as u32) < (y[i] as u32)
    }
}

/// Where index `x` goes into the ordered list `s`: after every entry whose
/// name does not come after its own.
pub open spec fn name_insert_pos(names: Seq<Seq<char>>, s: Seq<usize>, x: usize, j: int) -> int
    decreases s.len() - j,
{
    if j < 0 || j >= s.len() {
        s.len() as int
    } else if !lex_le(names[s[j] as int], names[x as int]) {
        j
    } else {
        name_insert_pos(names, s, x, j + 1)
    }
}

/// The first `n` indices of `names` ordered by name, equal names keeping
/// their order (a stable sort, written as insertion).
pub open spec fn name_order(names: Seq<Seq<char>>, n: int) -> Seq<usize>
    decreases n,
{
    if n <= 0 {
        seq![]
    } else {
        let s = name_order(names, n - 1);
        s.insert(name_insert_pos(names, s, (n - 1) as usize, 0), (n - 1) as usize)
    }
}

proof fn lemma_name_insert_pos(names: Seq<Seq<char>>, s: Seq<usize>, x: usize, j: int)
    requires
        0 <= j <= s.len(),
    ensures
        j <= name_insert_pos(names, s, x, j) <= s.len(),
    decreases s.len() - j,
{
    if j < s.len() && lex_le(names[s[j] as int], names[x as int]) {
        lemma_name_insert_pos(names, s, x, j + 1);
    }
}

proof fn lemma_name_order(names: Seq<Seq<char>>, n: int)
    requires
        0 <= n <= usize::MAX,
    ensures
        name_order(names, n).len() == n,
        forall|k: int| 0 <= k < n ==> #[trigger] name_order(names, n)[k] < n,
    decreases n,
{
    if n > 0 {
        let s = name_order(names, n - 1);
        lemma_name_order(names, n - 1);
        lemma_name_insert_pos(names, s, (n - 1) as usize, 0);
        let p = name_insert_pos(names, s, (n - 1) as usize, 0);
        assert forall|k: int| 0 <= k < n implies #[trigger] name_order(names, n)[k] < n by {
            if k < p {
                assert(name_order(names, n)[k] == s[k]);
            } else if k > p {
                assert(name_order(names, n)[k] == s[k - 1]);
            }
        }
    }
}

proof fn lemma_lex_total(a: Seq<char>, b: Seq<char>)
    ensures
        lex_le(a, b) || lex_le(b, a),
    decreases a.len(),
{
    if a.len() > 0 && b.len() > 0 {
        if a[0] == b[0] {
            lemma_lex_total(a.drop_first(), b.drop_first());
        } else {
            vstd::utf8::char_u32_cast(a[0], a[0] as u32);
            vstd::utf8::char_u32_cast(b[0], b[0] as u32);
        }
    }
}

proof fn lemma_lex_trans(a: Seq<char>, b: Seq<char>, c: Seq<char>)
    requires
        lex_le(a, b),
        lex_le(b, c),
    ensures
        lex_le(a, c),
    decreases a.len(),
{
    if a.len() > 0 && b.len() > 0 && c.len() > 0 && a[0] == b[0] && b[0] == c[0] {
        lemma_lex_trans(a.drop_first(), b.drop_first(), c.drop_first());
    }
}

/// The indices `s` come in order of their names.
pub open spec fn by_name(names: Seq<Seq<char>>, s: Seq<usize>) -> bool {
    forall|i: int, j: int| 0 <= i < j < s.len() ==> lex_le(names[#[trigger] s[i] as int], names[#[trigger] s[j] as int])
}

proof fn lemma_name_insert_split(names: Seq<Seq<char>>, s: Seq<usize>, x: usize, j: int)
    requires
        0 <= j <= s.len(),
        by_name(names, s),
        forall|m: int| 0 <= m < j ==> lex_le(names[#[trigger] s[m] as int], names[x as int]),
    ensures
        forall|m: int| 0 <= m < name_insert_pos(names, s, x, j) ==> lex_le(names[#[trigger] s[m] as int], names[x as int]),
        forall|m: int| name_insert_pos(names, s, x, j) <= m < s.len() ==> lex_le(names[x as int], names[#[trigger] s[m] as int]),
    decreases s.len() - j,
{
    if j < s.len() {
        if !lex_le(names[s[j] as int], names[x as int]) {
            lemma_lex_total(names[s[j] as int], names[x as int]);
            assert forall|m: int| j <= m < s.len() implies lex_le(names[x as int], names[#[trigger] s[m] as int]) by {
                if m > j {
                    assert(lex_le(names[s[j] as int], names[s[m] as int]));
                    lemma_lex_trans(names[x as int], names[s[j] as int], names[s[m] as int]);
                }
            }
        } else {
            lemma_name_insert_split(names, s, x, j + 1);
        }
    }
}

proof fn lemma_name_order_sorted(names: Seq<Seq<char>>, n: int)
    requires
        0 <= n <= usize::MAX,
    ensures
        by_name(names, name_order(names, n)),
        name_order(names, n).to_multiset() == indices(n as nat).to_multiset(),
    decreases n,
{
    broadcast use vstd::seq_lib::group_to_multiset_ensures;

    if n == 0 {
        assert(name_order(names, n).to_multiset() =~= indices(n as nat).to_multiset());
    } else {
        let s = name_order(names, n - 1);
        let x = (n - 1) as usize;
        lemma_name_order_sorted(names, n - 1);
        lemma_name_insert_pos(names, s, x, 0);
        lemma_name_insert_split(names, s, x, 0);
        let p = name_insert_pos(names, s, x, 0);
        let r = s.insert(p, x);
        assert(r == name_order(names, n));
        assert forall|i: int, j: int| 0 <= i < j < r.len() implies lex_le(names[#[trigger] r[i] as int], names[#[trigger] r[j] as int]) by {
            if j < p {
                assert(r[i] == s[i] && r[j] == s[j]);
            } else if j == p {
                assert(r[i] == s[i]);
            } else if i == p {
                assert(r[j] == s[j - 1]);
            } else if i < p {
                assert(r[i] == s[i] && r[j] == s[j - 1]);
                lemma_lex_trans(names[s[i] as int], names[x as int], names[s[j - 1] as int]);
            } else {
                assert(r[i] == s[i - 1] && r[j] == s[j - 1]);
            }
        }
        vstd::seq_lib::to_multiset_insert(s, p, x);
        assert(indices(n as nat) =~= indices((n - 1) as nat).push(x));
        assert(indices(n as nat).to_multiset() == indices((n - 1) as nat).to_multiset().insert(x));
    }
}

/// Sorting attachments orders them by name (`str` order) and keeps every
/// attachment exactly once.
pub proof fn law_attachments_sorted_by_name(names: Seq<Seq<char>>)
    requires
        names.len() <= usize::MAX,
    ensures
        by_name(names, name_order(names, names.len() as int)),
        name_order(names, names.len() as int).to_multiset() == indices(names.len()).to_multiset(),
{
    lemma_name_order_sorted(names, names.len() as int);
}

pub open spec fn attachment_names(v: Seq<AttachmentInfo>) -> Seq<Seq<char>> {
    v.map_values(|a: AttachmentInfo| a.name@)
}

/// An attachment as plain values: name, path and kind.
pub open spec fn attachment_view(a: AttachmentInfo) -> (Seq<char>, Seq<char>, Seq<char>) {
    (a.name@, a.path@, a.file_type@)
}

/// The indices of `names` in order of name (`str` order), equal names
/// keeping their order.
pub fn order_by_name(names: &Vec<String>) -> (r: Vec<usize>)
    ensures
        r@ == name_order(views(names@), names@.len() as int),
{
    let ghost all = views(names@);
    let n = names.len();
    let mut order: Vec<usize> = Vec::new();
    let mut k: usize = 0;
    while k < n
        invariant
            0 <= k <= n,
            n == names@.len(),
            all == views(names@),
            order@ == name_order(all, k as int),
        decreases n - k,
    {
        proof {
            lemma_name_order(all, k as int);
        }
        let mut p: usize = 0;
        while p < order.len() && name_le(names[order[p]].as_str(), names[k].as_str())
            invariant
                0 <= p <= order@.len(),
                k < n,
                n == names@.len(),
                all == views(names@),
                order@ == name_order(all, k as int),
                order@.len() == k,
                forall|j: int| 0 <= j < k ==> #[trigger] order@[j] < k,
                name_insert_pos(all, order@, k, 0) == name_insert_pos(all, order@, k, p as int),
            decreases order@.len() - p,
        {
            proof {
                assert(all[order@[p as int] as int] == names@[order@[p as int] as int]@);
                assert(all[k as int] == names@[k as int]@);
            }
            p = p + 1;
        }
        proof {
            if p < order@.len() {
                assert(all[order@[p as int] as int] == names@[order@[p as int] as int]@);
                assert(all[k as int] == names@[k as int]@);
            }
        }
        order.insert(p, k);
        k = k + 1;
    }
    order
}

/// Sorts attachments by name, equal names keeping their order.
pub fn sort_attachments(list: Vec<AttachmentInfo>) -> (r: Vec<AttachmentInfo>)
    ensures
        r@.map_values(|a: AttachmentInfo| attachment_view(a)) == name_order(attachment_names(list@), list@.len() as int).map_values(
            |i: usize| attachment_view(list@[i as int]),
        ),
{
    let ghost names = attachment_names(list@);
    let n = list.len();
    let mut listed: Vec<String> = Vec::new();
    let mut i: usize = 0;
    while i < n
        invariant
            0 <= i <= n,
            n == list@.len(),
            names == attachment_names(list@),
            views(listed@) == names.take(i as int),
        decreases n - i,
    {
        crate::text::push_string(&mut listed, owned(list[i].name.as_str()));
        proof {
            assert(names.take(i + 1) =~= names.take(i as int).push(list@[i as int].name@));
        }
        i = i + 1;
    }
    proof {
        assert(names.take(n as int) =~= names);
    }
    let order = order_by_name(&listed);
    proof {
        lemma_name_order(names, n as int);
    }
    let mut r: Vec<AttachmentInfo> = Vec::new();
    let mut j: usize = 0;
    while j < n
        invariant
            0 <= j <= n,
            n == list@.len(),
            order@ == name_order(names, n as int),
            order@.len() == n,
            forall|i: int| 0 <= i < n ==> #[trigger] order@[i] < n,
            r@.map_values(|a: AttachmentInfo| attachment_view(a)) == name_order(names, n as int).map_values(
                |i: usize| attachment_view(list@[i as int]),
            ).take(j as int),
        decreases n - j,
    {
        let src = &list[order[j]];
        let a = AttachmentInfo { name: src.name.clone(), path: src.path.clone(), file_type: src.file_type.clone() };
        let ghost before = r@;
        r.push(a);
        proof {
            let target = name_order(names, n as int).map_values(|i: usize| attachment_view(list@[i as int]));
            assert(attachment_view(a) == attachment_view(list@[order@[j as int] as int]));
            assert(r@.map_values(|a: AttachmentInfo| attachment_view(a)) =~= before.map_values(|a: AttachmentInfo| attachment_view(a)).push(attachment_view(a)));
            assert(target.take(j + 1) =~= target.take(j as int).push(target[j as int]));
        }
        j = j + 1;
    }
    proof {
        let target = name_order(names, n as int).map_values(|i: usize| attachment_view(list@[i as int]));
        assert(target.take(n as int) =~= target);
    }
    r
}

} // verus!
