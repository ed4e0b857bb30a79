//! The rules of a batch: which files are taken, in which order, and how the batch
//! ends.

use crate::text;
use vstd::prelude::*;

verus! {

// ---------------------------------------------------------------------------
// Which files
// ---------------------------------------------------------------------------

/// Whether a file name extension is that of a container, in whatever case.
pub open spec fn is_ncm_extension(extension: Option<Seq<char>>) -> bool {
    extension matches Some(e) && e.map_values(|c: char| text::lower(c)) == "ncm"@
}

/// What is done with a directory entry or an argument.
#[derive(Clone, Copy, Debug, PartialEq, Eq, Structural)]
pub enum EntryAction {
    /// It is a container to decode.
    Take,
    /// It is a directory to look into.
    Descend,
    /// It is neither.
    Ignore,
}

/// What is done with an entry.
pub open spec fn action_for(
    is_file: bool,
    is_dir: bool,
    extension: Option<Seq<char>>,
    look_into: bool,
) -> EntryAction {
    if is_file && is_ncm_extension(extension) {
        EntryAction::Take
    } else if is_dir && look_into {
        EntryAction::Descend
    } else {
        EntryAction::Ignore
    }
}

/// What is done with an entry: a file is taken exactly if its extension is `ncm`,
/// in whatever case; a directory is looked into exactly where directories are; and
/// nothing else is touched.
pub proof fn law_entries(e: Seq<char>, look_into: bool)
    ensures
        action_for(true, false, Some(e), look_into) == EntryAction::Take <==> e.len() == 3 && (e[0]
            == 'n' || e[0] == 'N') && (e[1] == 'c' || e[1] == 'C') && (e[2] == 'm' || e[2] == 'M'),
        action_for(true, false, Some(e), look_into) != EntryAction::Descend,
        action_for(true, false, None, look_into) == EntryAction::Ignore,
        action_for(false, true, Some(e), look_into) == EntryAction::Descend <==> look_into,
        action_for(false, true, None, look_into) == EntryAction::Descend <==> look_into,
        action_for(false, true, Some(e), look_into) != EntryAction::Take,
        action_for(false, false, Some(e), look_into) == EntryAction::Ignore,
        action_for(false, false, None, look_into) == EntryAction::Ignore,
{
    law_container_extension(e);
}

/// Whether a file name extension is that of a container.
pub fn is_ncm(extension: Option<&str>) -> (yes: bool)
    ensures
        yes == is_ncm_extension(
            match extension {
                Some(e) => Some(e@),
                None => None,
            },
        ),
{
    match extension {
        None => false,
        Some(e) => {
            let chars: Vec<char> = text::chars_of(e);
            let mut small: Vec<char> = Vec::new();
            let mut i: usize = 0;
            while i < chars.len()
                invariant
                    i <= chars.len(),
                    small@.len() == i,
                    forall|k: int| 0 <= k < i ==> small@[k] == text::lower(chars@[k]),
                decreases chars.len() - i,
            {
                small.push(text::lower_char(chars[i]));
                i = i + 1;
            }
            assert(small@ =~= e@.map_values(|c: char| text::lower(c)));
            text::spells(&small, "ncm")
        },
    }
}

/// What is done with an entry: a container is taken, a directory is looked into
/// where directories are.
pub fn entry_action(is_file: bool, is_dir: bool, extension: Option<&str>, look_into: bool) -> (action:
    EntryAction)
    ensures
        action == (if is_file && is_ncm_extension(
            match extension {
                Some(e) => Some(e@),
                None => None,
            },
        ) {
            EntryAction::Take
        } else if is_dir && look_into {
            EntryAction::Descend
        } else {
            EntryAction::Ignore
        }),
        action == action_for(
            is_file,
            is_dir,
            match extension {
                Some(e) => Some(e@),
                None => None,
            },
            look_into,
        ),
{
    if is_file && is_ncm(extension) {
        EntryAction::Take
    } else if is_dir && look_into {
        EntryAction::Descend
    } else {
        EntryAction::Ignore
    }
}

// ---------------------------------------------------------------------------
// In which order
// ---------------------------------------------------------------------------

/// Whether `a` comes before `b` in the order of their bytes.
pub open spec fn bytes_before(a: Seq<u8>, b: Seq<u8>) -> bool
    decreases a.len(),
{
    if b.len() == 0 {
        false
    } else if a.len() == 0 {
        true
    } else {
        a[0] < b[0] || a[0] == b[0] && bytes_before(a.drop_first(), b.drop_first())
    }
}

/// Whether path `i` comes before path `j`: by their bytes, and of two equal
/// paths the one named first.
pub open spec fn precedes(paths: Seq<Seq<u8>>, i: int, j: int) -> bool {
    bytes_before(paths[i], paths[j]) || paths[i] == paths[j] && i < j
}

/// Whether paths `i` and `j` are known to lead to one file.
pub open spec fn same_file(canonical: Seq<Option<Seq<u8>>>, i: int, j: int) -> bool {
    canonical[i] is Some && canonical[i] == canonical[j]
}

/// Whether no path that comes before path `i` leads to the same file.
pub open spec fn is_first(paths: Seq<Seq<u8>>, canonical: Seq<Option<Seq<u8>>>, i: int) -> bool {
    forall|j: int|
        0 <= j < paths.len() && precedes(paths, j, i) ==> !#[trigger] same_file(canonical, j, i)
}

/// Whether `order` lists the paths to decode: in the order of the paths, and of
/// the paths that lead to one file the first.
pub open spec fn is_work_list(
    paths: Seq<Seq<u8>>,
    canonical: Seq<Option<Seq<u8>>>,
    order: Seq<int>,
) -> bool {
    &&& forall|a: int, b: int|
        0 <= a < b < order.len() ==> precedes(paths, #[trigger] order[a], #[trigger] order[b])
    &&& forall|i: int| #[trigger]
        order.contains(i) <==> 0 <= i < paths.len() && is_first(paths, canonical, i)
}

proof fn lemma_bytes_before_irreflexive(a: Seq<u8>)
    ensures
        !bytes_before(a, a),
    decreases a.len(),
{
    if a.len() > 0 {
        lemma_bytes_before_irreflexive(a.drop_first());
    }
}

proof fn lemma_bytes_before_transitive(a: Seq<u8>, b: Seq<u8>, c: Seq<u8>)
    requires
        bytes_before(a, b),
        bytes_before(b, c),
    ensures
        bytes_before(a, c),
    decreases a.len(),
{
    if a.len() > 0 && a[0] == b[0] && b[0] == c[0] {
        lemma_bytes_before_transitive(a.drop_first(), b.drop_first(), c.drop_first());
    }
}

proof fn lemma_bytes_before_total(a: Seq<u8>, b: Seq<u8>)
    ensures
        bytes_before(a, b) || a == b || bytes_before(b, a),
    decreases a.len(),
{
    if a.len() == 0 || b.len() == 0 {
        if a.len() == b.len() {
            assert(a =~= b);
        }
    } else if a[0] == b[0] {
        lemma_bytes_before_total(a.drop_first(), b.drop_first());
        if a.drop_first() == b.drop_first() {
            assert(a =~= seq![a[0]] + a.drop_first());
            assert(b =~= seq![b[0]] + b.drop_first());
        }
    }
}

/// The order of paths is a strict total order.
pub proof fn law_precedes_is_total_order(paths: Seq<Seq<u8>>, i: int, j: int, k: int)
    ensures
        !precedes(paths, i, i),
        precedes(paths, i, j) && precedes(paths, j, k) ==> precedes(paths, i, k),
        i != j ==> precedes(paths, i, j) || precedes(paths, j, i),
        !(precedes(paths, i, j) && precedes(paths, j, i)),
{
    lemma_bytes_before_irreflexive(paths[i]);
    if bytes_before(paths[i], paths[j]) && bytes_before(paths[j], paths[k]) {
        lemma_bytes_before_transitive(paths[i], paths[j], paths[k]);
    }
    lemma_bytes_before_total(paths[i], paths[j]);
    if bytes_before(paths[i], paths[j]) && bytes_before(paths[j], paths[i]) {
        lemma_bytes_before_transitive(paths[i], paths[j], paths[i]);
    }
}

proof fn lemma_common_beginning(start: Seq<u8>, a: Seq<u8>, b: Seq<u8>)
    ensures
        bytes_before(start + a, start + b) == bytes_before(a, b),
    decreases start.len(),
{
    if start.len() == 0 {
        assert(start + a =~= a);
        assert(start + b =~= b);
    } else {
        assert((start + a).drop_first() =~= start.drop_first() + a);
        assert((start + b).drop_first() =~= start.drop_first() + b);
        lemma_common_beginning(start.drop_first(), a, b);
    }
}

/// The order of bytes is that of a dictionary: behind a common beginning, of
/// whatever length, the smaller byte comes first, whatever follows; and what
/// ends there comes before what goes on.
pub proof fn law_order_of_a_dictionary(
    start: Seq<u8>,
    x: u8,
    a: Seq<u8>,
    y: u8,
    b: Seq<u8>,
)
    ensures
        x < y ==> bytes_before(start + (seq![x] + a), start + (seq![y] + b)),
        x > y ==> !bytes_before(start + (seq![x] + a), start + (seq![y] + b)),
        bytes_before(start, start + (seq![y] + b)),
        !bytes_before(start + (seq![x] + a), start),
        !bytes_before(start, start),
{
    lemma_common_beginning(start, seq![x] + a, seq![y] + b);
    lemma_common_beginning(start, seq![], seq![y] + b);
    lemma_common_beginning(start, seq![x] + a, seq![]);
    assert(start + Seq::<u8>::empty() =~= start);
    lemma_bytes_before_irreflexive(start);
}

/// An extension is that of a container exactly if it is the three letters `ncm`,
/// each in either case.
pub proof fn law_container_extension(e: Seq<char>)
    ensures
        is_ncm_extension(Some(e)) <==> e.len() == 3 && (e[0] == 'n' || e[0] == 'N') && (e[1] == 'c'
            || e[1] == 'C') && (e[2] == 'm' || e[2] == 'M'),
        !is_ncm_extension(None),
{
    reveal_strlit("ncm");
    let small = e.map_values(|c: char| text::lower(c));
    if e.len() == 3 {
        lemma_letter(e[0], 'n');
        lemma_letter(e[1], 'c');
        lemma_letter(e[2], 'm');
        assert(small[0] == text::lower(e[0]) && small[1] == text::lower(e[1]) && small[2]
            == text::lower(e[2]));
        if small[0] == 'n' && small[1] == 'c' && small[2] == 'm' {
            assert(small =~= "ncm"@);
        }
    }
    if small == "ncm"@ {
        assert(small.len() == 3);
        assert(small[0] == 'n' && small[1] == 'c' && small[2] == 'm');
    }
}

proof fn lemma_letter(c: char, small: char)
    requires
        'a' <= small <= 'z',
    ensures
        text::lower(c) == small <==> c == small || c as int + 32 == small as int,
{
}

/// Every file that is found is worked on: for each path the list has one that
/// leads to the same file and does not come behind it, and a path that could not
/// be resolved is on the list itself.
pub proof fn law_every_file_is_listed(
    paths: Seq<Seq<u8>>,
    canonical: Seq<Option<Seq<u8>>>,
    order: Seq<int>,
    i: int,
)
    requires
        is_work_list(paths, canonical, order),
        paths.len() == canonical.len(),
        0 <= i < paths.len(),
    ensures
        canonical[i] is None ==> order.contains(i),
        order.contains(i) || exists|j: int| #[trigger]
            order.contains(j) && canonical[j] == canonical[i] && precedes(paths, j, i),
{
    let first = lemma_first_of_file(paths, canonical, i, paths.len());
    assert(order.contains(first));
    if canonical[i] is None {
        assert(is_first(paths, canonical, i));
    }
}

/// The first of the paths below `n`, and of path `i`, that leads to the file of
/// path `i`.
proof fn lemma_first_of_file(
    paths: Seq<Seq<u8>>,
    canonical: Seq<Option<Seq<u8>>>,
    i: int,
    n: nat,
) -> (first: int)
    requires
        0 <= i < paths.len(),
        n <= paths.len(),
    ensures
        0 <= first < paths.len(),
        first == i || canonical[first] == canonical[i] && precedes(paths, first, i),
        forall|j: int|
            0 <= j < n && precedes(paths, j, first) ==> !#[trigger] same_file(canonical, j, first),
    decreases n,
{
    if n == 0 {
        i
    } else {
        let best = lemma_first_of_file(paths, canonical, i, (n - 1) as nat);
        let last = n - 1;
        if same_file(canonical, last, best) && precedes(paths, last, best) {
            law_precedes_is_total_order(paths, last, best, i);
            law_precedes_is_total_order(paths, last, last, last);
            assert forall|j: int| 0 <= j < n && precedes(paths, j, last) implies !#[trigger] same_file(
                canonical,
                j,
                last,
            ) by {
                law_precedes_is_total_order(paths, j, last, best);
                if j < n - 1 {
                    assert(!same_file(canonical, j, best));
                }
            }
            last
        } else {
            best
        }
    }
}

/// The list is in the order of the bytes of the paths, and paths of the same bytes
/// are in the order in which they were found.
pub proof fn law_list_is_sorted(
    paths: Seq<Seq<u8>>,
    canonical: Seq<Option<Seq<u8>>>,
    order: Seq<int>,
    a: int,
    b: int,
)
    requires
        is_work_list(paths, canonical, order),
        0 <= a < b < order.len(),
    ensures
        !bytes_before(paths[order[b]], paths[order[a]]),
        paths[order[a]] == paths[order[b]] ==> order[a] < order[b],
{
    assert(precedes(paths, order[a], order[b]));
    law_precedes_is_total_order(paths, order[a], order[b], order[a]);
    lemma_bytes_before_irreflexive(paths[order[a]]);
    if bytes_before(paths[order[b]], paths[order[a]]) {
        assert(precedes(paths, order[b], order[a]));
    }
}

/// No file is worked on twice: two paths on one work list are never known to
/// lead to one file.
pub proof fn law_no_file_twice(
    paths: Seq<Seq<u8>>,
    canonical: Seq<Option<Seq<u8>>>,
    order: Seq<int>,
    a: int,
    b: int,
)
    requires
        is_work_list(paths, canonical, order),
        0 <= a < b < order.len(),
    ensures
        !same_file(canonical, order[a], order[b]),
{
    assert(order.contains(order[a]));
    assert(order.contains(order[b]));
    assert(precedes(paths, order[a], order[b]));
}

/// Of the files on the list, no two that could be resolved are the same: their
/// resolved paths differ.
pub proof fn law_listed_files_differ(
    paths: Seq<Seq<u8>>,
    canonical: Seq<Option<Seq<u8>>>,
    order: Seq<int>,
    a: int,
    b: int,
)
    requires
        is_work_list(paths, canonical, order),
        0 <= a < b < order.len(),
    ensures
        canonical[order[a]] is None || canonical[order[b]] is None || canonical[order[a]]
            != canonical[order[b]],
{
    law_no_file_twice(paths, canonical, order, a, b);
}

/// Paths are compared in full, byte for byte, and the list names them by their
/// positions.
pub proof fn law_paths_count_in_full(
    paths: Seq<Vec<u8>>,
    canonical: Seq<Option<Vec<u8>>>,
    order: Seq<usize>,
    i: int,
)
    ensures
        path_bytes(paths).len() == paths.len(),
        canonical_bytes(canonical).len() == canonical.len(),
        indices(order).len() == order.len(),
        0 <= i < paths.len() ==> path_bytes(paths)[i] == paths[i]@,
        0 <= i < canonical.len() ==> match canonical[i] {
            Some(path) => canonical_bytes(canonical)[i] == Some(path@),
            None => canonical_bytes(canonical)[i] is None,
        },
        0 <= i < order.len() ==> indices(order)[i] == order[i],
{
}

/// There is one work list for the paths: their order and their choice are fixed.
pub proof fn law_work_list_is_unique(
    paths: Seq<Seq<u8>>,
    canonical: Seq<Option<Seq<u8>>>,
    one: Seq<int>,
    other: Seq<int>,
)
    requires
        is_work_list(paths, canonical, one),
        is_work_list(paths, canonical, other),
    ensures
        one == other,
{
    assert forall|i: int| one.contains(i) <==> other.contains(i) by {}
    lemma_sorted_is_unique(paths, one, other);
}

proof fn lemma_sorted_is_unique(paths: Seq<Seq<u8>>, one: Seq<int>, other: Seq<int>)
    requires
        forall|a: int, b: int|
            0 <= a < b < one.len() ==> precedes(paths, #[trigger] one[a], #[trigger] one[b]),
        forall|a: int, b: int|
            0 <= a < b < other.len() ==> precedes(paths, #[trigger] other[a], #[trigger] other[b]),
        forall|i: int| one.contains(i) <==> other.contains(i),
    ensures
        one == other,
    decreases one.len(),
{
    if one.len() == 0 {
        if other.len() > 0 {
            assert(other.contains(other[0]));
        }
        assert(one =~= other);
    } else {
        assert(one.contains(one[0]));
        let k = choose|k: int| 0 <= k < other.len() && other[k] == one[0];
        assert(other.contains(other[0]));
        let m = choose|m: int| 0 <= m < one.len() && one[m] == other[0];
        if k > 0 {
            assert(precedes(paths, other[0], other[k]));
            law_precedes_is_total_order(paths, other[0], other[k], one[0]);
            if m > 0 {
                assert(precedes(paths, one[0], one[m]));
            }
        }
        assert(one[0] == other[0]);
        let first = one[0];
        let tail = one.drop_first();
        let rest = other.drop_first();
        assert forall|i: int| tail.contains(i) <==> rest.contains(i) by {
            law_precedes_is_total_order(paths, first, first, first);
            if tail.contains(i) {
                let a = choose|a: int| 0 <= a < tail.len() && tail[a] == i;
                assert(one[a + 1] == i);
                assert(precedes(paths, one[0], one[a + 1]));
                assert(one.contains(i));
                let b = choose|b: int| 0 <= b < other.len() && other[b] == i;
                assert(b > 0);
                assert(rest[b - 1] == i);
            }
            if rest.contains(i) {
                let b = choose|b: int| 0 <= b < rest.len() && rest[b] == i;
                assert(other[b + 1] == i);
                assert(precedes(paths, other[0], other[b + 1]));
                assert(other.contains(i));
                let a = choose|a: int| 0 <= a < one.len() && one[a] == i;
                assert(a > 0);
                assert(tail[a - 1] == i);
            }
        }
        lemma_sorted_is_unique(paths, tail, rest);
        assert(one =~= seq![first] + tail);
        assert(other =~= seq![first] + rest);
    }
}

/// The bytes of each path.
pub open spec fn path_bytes(paths: Seq<Vec<u8>>) -> Seq<Seq<u8>> {
    paths.map_values(|p: Vec<u8>| p@)
}

/// The bytes of each resolved path, where there is one.
pub open spec fn canonical_bytes(canonical: Seq<Option<Vec<u8>>>) -> Seq<Option<Seq<u8>>> {
    canonical.map_values(
        |c: Option<Vec<u8>>|
            match c {
                Some(c) => Some(c@),
                None => None,
            },
    )
}

/// Indices as mathematical numbers.
pub open spec fn indices(order: Seq<usize>) -> Seq<int> {
    order.map_values(|i: usize| i as int)
}

/// Whether `a` comes before `b` in the order of their bytes.
fn comes_before(a: &[u8], b: &[u8]) -> (yes: bool)
    ensures
        yes == bytes_before(a@, b@),
{
    let mut i: usize = 0;
    assert(a@.skip(0) =~= a@);
    assert(b@.skip(0) =~= b@);
    while i < a.len() && i < b.len()
        invariant
            i <= a@.len(),
            i <= b@.len(),
            bytes_before(a@, b@) == bytes_before(a@.skip(i as int), b@.skip(i as int)),
        decreases a.len() - i,
    {
        if a[i] < b[i] {
            return true;
        }
        if b[i] < a[i] {
            return false;
        }
        assert(a@.skip(i as int).drop_first() =~= a@.skip(i + 1));
        assert(b@.skip(i as int).drop_first() =~= b@.skip(i + 1));
        i = i + 1;
    }
    i < b.len()
}

/// Whether path `i` comes before path `j`.
fn path_precedes(paths: &Vec<Vec<u8>>, i: usize, j: usize) -> (yes: bool)
    requires
        i < paths@.len(),
        j < paths@.len(),
    ensures
        yes == precedes(path_bytes(paths@), i as int, j as int),
{
    let before: bool = comes_before(paths[i].as_slice(), paths[j].as_slice());
    let after: bool = comes_before(paths[j].as_slice(), paths[i].as_slice());
    proof {
        lemma_bytes_before_total(paths@[i as int]@, paths@[j as int]@);
        lemma_bytes_before_irreflexive(paths@[i as int]@);
    }
    before || !after && i < j
}

/// Whether `order` lists the first `n` paths in their order.
spec fn sorts(paths: Seq<Seq<u8>>, order: Seq<usize>, n: int) -> bool {
    &&& forall|a: int, b: int|
        0 <= a < b < order.len() ==> precedes(
            paths,
            #[trigger] order[a] as int,
            #[trigger] order[b] as int,
        )
    &&& forall|a: int| 0 <= a < order.len() ==> #[trigger] order[a] < n
    &&& forall|i: int| 0 <= i < n ==> #[trigger] order.contains(i as usize)
}

/// The positions of the paths in the order of the paths.
fn sort_paths(paths: &Vec<Vec<u8>>) -> (order: Vec<usize>)
    ensures
        sorts(path_bytes(paths@), order@, paths@.len() as int),
{
    let mut order: Vec<usize> = Vec::new();
    let mut i: usize = 0;
    let ghost all = path_bytes(paths@);
    while i < paths.len()
        invariant
            i <= paths@.len(),
            all == path_bytes(paths@),
            sorts(all, order@, i as int),
        decreases paths.len() - i,
    {
        let ghost before = order@;
        let mut place: usize = order.len();
        while place > 0 && path_precedes(paths, i, order[place - 1])
            invariant
                place <= order@.len(),
                i < paths@.len(),
                order@ == before,
                all == path_bytes(paths@),
                sorts(all, order@, i as int),
                forall|a: int|
                    place <= a < order@.len() ==> precedes(
                        all,
                        i as int,
                        #[trigger] order@[a] as int,
                    ),
            decreases place,
        {
            place = place - 1;
        }
        proof {
            assert forall|a: int| 0 <= a < place implies precedes(
                all,
                #[trigger] before[a] as int,
                i as int,
            ) by {
                let last = before[place - 1] as int;
                law_precedes_is_total_order(all, i as int, last, last);
                if a < place - 1 {
                    assert(precedes(all, before[a] as int, last));
                    law_precedes_is_total_order(all, before[a] as int, last, i as int);
                }
            }
        }
        order.insert(place, i);
        assert forall|k: int| 0 <= k < i + 1 implies #[trigger] order@.contains(k as usize) by {
            if k == i {
                assert(order@[place as int] == i);
            } else {
                assert(before.contains(k as usize));
                let a = choose|a: int| 0 <= a < before.len() && before[a] == k as usize;
                if a < place {
                    assert(order@[a] == k as usize);
                } else {
                    assert(order@[a + 1] == k as usize);
                }
            }
        }
        i = i + 1;
    }
    order
}

/// Whether paths `i` and `j` are known to lead to one file.
fn leads_to_same_file(canonical: &Vec<Option<Vec<u8>>>, i: usize, j: usize) -> (yes: bool)
    requires
        i < canonical@.len(),
        j < canonical@.len(),
    ensures
        yes == same_file(canonical_bytes(canonical@), i as int, j as int),
{
    match (&canonical[i], &canonical[j]) {
        (Some(a), Some(b)) => text::same_bytes(a.as_slice(), b.as_slice()),
        _ => false,
    }
}

/// Puts the found paths in order and drops those that lead to a file that comes
/// earlier. A path that could not be resolved is kept. The result gives the
/// positions of the paths to decode.
pub fn collect_inputs(paths: &Vec<Vec<u8>>, canonical: &Vec<Option<Vec<u8>>>) -> (kept: Vec<usize>)
    requires
        paths@.len() == canonical@.len(),
    ensures
        is_work_list(path_bytes(paths@), canonical_bytes(canonical@), indices(kept@)),
{
    let count: usize = paths.len();
    let order: Vec<usize> = sort_paths(paths);
    let ghost all = path_bytes(paths@);
    let ghost resolved = canonical_bytes(canonical@);
    let mut kept: Vec<usize> = Vec::new();
    let mut n: usize = 0;
    while n < order.len()
        invariant
            n <= order@.len(),
            count == paths@.len() == canonical@.len(),
            all == path_bytes(paths@),
            resolved == canonical_bytes(canonical@),
            sorts(all, order@, paths@.len() as int),
            forall|a: int| 0 <= a < kept@.len() ==> #[trigger] kept@[a] < paths@.len(),
            forall|a: int, b: int|
                0 <= a < b < kept@.len() ==> precedes(
                    all,
                    #[trigger] kept@[a] as int,
                    #[trigger] kept@[b] as int,
                ),
            forall|a: int|
                0 <= a < kept@.len() ==> order@.take(n as int).contains(#[trigger] kept@[a]),
            forall|a: int|
                0 <= a < n ==> (kept@.contains(#[trigger] order@[a]) <==> is_first(
                    all,
                    resolved,
                    order@[a] as int,
                )),
        decreases order.len() - n,
    {
        let i: usize = order[n];
        let mut first: bool = true;
        let mut a: usize = 0;
        while a < n
            invariant
                a <= n < order@.len(),
                i == order@[n as int],
                i < paths@.len(),
                paths@.len() == canonical@.len(),
                resolved == canonical_bytes(canonical@),
                sorts(all, order@, paths@.len() as int),
                first <==> forall|b: int|
                    0 <= b < a ==> !same_file(resolved, #[trigger] order@[b] as int, i as int),
            decreases n - a,
        {
            if leads_to_same_file(canonical, order[a], i) {
                first = false;
            }
            a = a + 1;
        }
        assert(first == is_first(all, resolved, i as int)) by {
            if first {
                assert forall|j: int| 0 <= j < all.len() && precedes(all, j, i as int) implies
                    !#[trigger] same_file(resolved, j, i as int) by {
                    assert(order@.contains(j as usize));
                    let b = choose|b: int| 0 <= b < order@.len() && order@[b] == j as usize;
                    law_precedes_is_total_order(all, j, i as int, j);
                    if n < b {
                        assert(precedes(all, order@[n as int] as int, order@[b] as int));
                    }
                    assert(b < n);
                }
            } else {
                let b = choose|b: int|
                    0 <= b < n && same_file(resolved, #[trigger] order@[b] as int, i as int);
                assert(precedes(all, order@[b] as int, order@[n as int] as int));
                assert(same_file(resolved, order@[b] as int, i as int));
            }
        }
        let ghost before = kept@;
        proof {
            assert forall|b: int| 0 <= b < before.len() implies precedes(
                all,
                #[trigger] before[b] as int,
                i as int,
            ) by {
                let c = choose|c: int|
                    0 <= c < order@.take(n as int).len() && order@.take(n as int)[c] == before[b];
                assert(order@[c] == before[b]);
                assert(precedes(all, order@[c] as int, order@[n as int] as int));
            }
            assert(!before.contains(i)) by {
                if before.contains(i) {
                    let b = choose|b: int| 0 <= b < before.len() && before[b] == i;
                    law_precedes_is_total_order(all, before[b] as int, i as int, i as int);
                }
            }
        }
        if first {
            kept.push(i);
        }
        proof {
            assert forall|b: int| 0 <= b < kept@.len() implies order@.take(n + 1).contains(
                #[trigger] kept@[b],
            ) by {
                if b < before.len() {
                    assert(order@.take(n as int).contains(before[b]));
                    let c = choose|c: int|
                        0 <= c < order@.take(n as int).len() && order@.take(n as int)[c]
                            == before[b];
                    assert(order@.take(n + 1)[c] == kept@[b]);
                } else {
                    assert(order@.take(n + 1)[n as int] == i);
                }
            }
            assert forall|b: int| 0 <= b < n + 1 implies (kept@.contains(#[trigger] order@[b])
                <==> is_first(all, resolved, order@[b] as int)) by {
                let x = order@[b];
                if first {
                    assert(kept@ =~= before.push(i));
                    assert(kept@[before.len() as int] == i);
                    if before.contains(x) {
                        let c = choose|c: int| 0 <= c < before.len() && before[c] == x;
                        assert(kept@[c] == x);
                    }
                    if b < n {
                        assert(precedes(all, order@[b] as int, order@[n as int] as int));
                        law_precedes_is_total_order(all, x as int, i as int, i as int);
                    }
                }
            }
        }
        n = n + 1;
    }
    proof {
        let list = indices(kept@);
        assert forall|i: int| #[trigger] list.contains(i) <==> 0 <= i < all.len() && is_first(
            all,
            resolved,
            i,
        ) by {
            if list.contains(i) {
                let a = choose|a: int| 0 <= a < list.len() && list[a] == i;
                assert(order@.take(n as int).contains(kept@[a]));
                let c = choose|c: int|
                    0 <= c < order@.take(n as int).len() && order@.take(n as int)[c] == kept@[a];
                assert(order@[c] == kept@[a]);
                assert(kept@.contains(order@[c]));
            }
            if 0 <= i < all.len() && is_first(all, resolved, i) {
                assert(order@.contains(i as usize));
                let c = choose|c: int| 0 <= c < order@.len() && order@[c] == i as usize;
                assert(kept@.contains(order@[c]));
                let a = choose|a: int| 0 <= a < kept@.len() && kept@[a] == i as usize;
                assert(list[a] == i);
            }
        }
    }
    kept
}

// ---------------------------------------------------------------------------
// How it ends
// ---------------------------------------------------------------------------

/// How one file of a batch ended.
#[derive(Clone, Copy, Debug, PartialEq, Eq, Structural)]
pub enum Ending {
    Succeeded,
    Skipped,
    Failed,
}

/// How the files of a batch ended, counted.
#[derive(Clone, Copy, Debug, PartialEq, Eq, Structural)]
pub struct Tally {
    pub succeeded: usize,
    pub skipped: usize,
    pub failed: usize,
}

/// How often `ending` occurs.
pub open spec fn occurrences(endings: Seq<Ending>, ending: Ending) -> nat
    decreases endings.len(),
{
    if endings.len() == 0 {
        0
    } else {
        occurrences(endings.drop_last(), ending) + (if endings.last() == ending {
            1nat
        } else {
            0nat
        })
    }
}

impl Tally {
    /// Whether the counts are those of `endings`.
    pub open spec fn counts(self, endings: Seq<Ending>) -> bool {
        &&& self.succeeded == occurrences(endings, Ending::Succeeded)
        &&& self.skipped == occurrences(endings, Ending::Skipped)
        &&& self.failed == occurrences(endings, Ending::Failed)
    }

    /// The number of files counted.
    pub open spec fn total(self) -> int {
        self.succeeded + self.skipped + self.failed
    }

    /// What the batch ends with.
    pub open spec fn exit_status(self) -> int {
        if self.failed == 0 {
            0
        } else {
            1
        }
    }

    /// Nothing has been counted.
    pub fn new() -> (tally: Self)
        ensures
            tally.counts(Seq::empty()),
            tally.total() == 0,
    {
        Tally { succeeded: 0, skipped: 0, failed: 0 }
    }

    /// Counts one more file.
    pub fn record(&mut self, ending: Ending)
        requires
            old(self).total() < usize::MAX,
        ensures
            final(self).total() == old(self).total() + 1,
            final(self).succeeded == old(self).succeeded + (if ending == Ending::Succeeded {
                1int
            } else {
                0int
            }),
            final(self).skipped == old(self).skipped + (if ending == Ending::Skipped {
                1int
            } else {
                0int
            }),
            final(self).failed == old(self).failed + (if ending == Ending::Failed {
                1int
            } else {
                0int
            }),
            forall|endings: Seq<Ending>| #[trigger]
                old(self).counts(endings) ==> final(self).counts(endings.push(ending)),
    {
        let ghost before = *self;
        match ending {
            Ending::Succeeded => {
                self.succeeded = self.succeeded + 1;
            },
            Ending::Skipped => {
                self.skipped = self.skipped + 1;
            },
            Ending::Failed => {
                self.failed = self.failed + 1;
            },
        }
        assert forall|endings: Seq<Ending>| #[trigger] before.counts(endings) implies self.counts(
            endings.push(ending),
        ) by {
            assert(endings.push(ending).drop_last() =~= endings);
        }
    }

    /// The exit code of the batch: one if a file failed, else zero.
    pub fn exit_code(&self) -> (code: u8)
        ensures
            code == (if self.failed == 0 {
                0int
            } else {
                1int
            }),
            code == self.exit_status(),
    {
        if self.failed == 0 {
            0
        } else {
            1
        }
    }

    /// The last line of the batch.
    pub fn summary_line(&self) -> (line: String)
        ensures
            line@ == "汇总: 成功 "@ + text::decimal(self.succeeded as nat) + "，跳过 "@
                + text::decimal(self.skipped as nat) + "，失败 "@ + text::decimal(
                self.failed as nat,
            ),
    {
        let mut line: String = String::from_str("汇总: 成功 ");
        line.append(text::decimal_text(self.succeeded as u64).as_str());
        line.append("，跳过 ");
        line.append(text::decimal_text(self.skipped as u64).as_str());
        line.append("，失败 ");
        line.append(text::decimal_text(self.failed as u64).as_str());
        line
    }
}

/// A count of no failures means that no file failed, and every file is counted
/// once: so one failure neither goes unnoticed nor hides the other files.
pub proof fn law_tally_misses_nothing(tally: Tally, endings: Seq<Ending>)
    requires
        tally.counts(endings),
    ensures
        tally.failed == 0 <==> forall|i: int|
            0 <= i < endings.len() ==> #[trigger] endings[i] != Ending::Failed,
        tally.total() == endings.len(),
{
    lemma_occurrences(endings);
}

/// A batch ends with zero exactly if none of its files failed, however many there
/// are, and else with one.
pub proof fn law_exit_status(tally: Tally, endings: Seq<Ending>)
    requires
        tally.counts(endings),
    ensures
        tally.exit_status() == 0 <==> forall|i: int|
            0 <= i < endings.len() ==> #[trigger] endings[i] != Ending::Failed,
        tally.exit_status() == 0 || tally.exit_status() == 1,
{
    law_tally_misses_nothing(tally, endings);
}

/// Each ending is counted where it belongs: one more of a kind is one more in its
/// count and in no other.
pub proof fn law_endings_are_counted(endings: Seq<Ending>, more: Ending, kind: Ending)
    ensures
        occurrences(endings.push(more), kind) == occurrences(endings, kind) + (if more == kind {
            1int
        } else {
            0int
        }),
        occurrences(Seq::<Ending>::empty(), kind) == 0,
{
    assert(endings.push(more).drop_last() =~= endings);
}

proof fn lemma_occurrences(endings: Seq<Ending>)
    ensures
        occurrences(endings, Ending::Failed) == 0 <==> forall|i: int|
            0 <= i < endings.len() ==> #[trigger] endings[i] != Ending::Failed,
        occurrences(endings, Ending::Succeeded) + occurrences(endings, Ending::Skipped)
            + occurrences(endings, Ending::Failed) == endings.len(),
    decreases endings.len(),
{
    if endings.len() > 0 {
        let rest = endings.drop_last();
        lemma_occurrences(rest);
        assert forall|i: int| 0 <= i < rest.len() implies rest[i] == endings[i] by {}
        if occurrences(endings, Ending::Failed) == 0 {
            assert forall|i: int| 0 <= i < endings.len() implies #[trigger] endings[i]
                != Ending::Failed by {
                if i < rest.len() {
                    assert(rest[i] != Ending::Failed);
                }
            }
        }
    }
}

} // verus!
