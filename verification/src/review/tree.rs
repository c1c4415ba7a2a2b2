//! The file tree beside the files: directories and files in the order a
//! file browser lists them, and which of them a filter and the closed
//! directories leave visible.

use vstd::prelude::*;

use crate::chars::{
    starts_with,
    append_text, chars_of, contains_text, find_text, lowercase, to_lowercase, trim, trimmed, same_chars, compare_text, copy_range, lemma_split_nonempty, lemma_text_lt_order, split, split_chars,
    string_of, text_lt, views,
};

verus! {

/// One step of the way to an entry of the tree: a directory, or a file and
/// the index of its path.
pub struct Step {
    pub file: bool,
    pub name: Seq<char>,
    pub index: int,
}

/// Directories before files; directories by name, files by name and then
/// by index.
pub open spec fn step_lt(x: Step, y: Step) -> bool {
    if x.file != y.file {
        !x.file
    } else if x.name != y.name {
        text_lt(x.name, y.name)
    } else {
        x.index < y.index
    }
}

/// The order of the tree: step by step, a directory before what it holds.
pub open spec fn key_lt(a: Seq<Step>, b: Seq<Step>) -> bool
    decreases a.len(),
{
    if a.len() == 0 {
        b.len() > 0
    } else if b.len() == 0 {
        false
    } else if a[0] != b[0] {
        step_lt(a[0], b[0])
    } else {
        key_lt(a.drop_first(), b.drop_first())
    }
}

/// `step_lt` is a strict total order.
pub proof fn lemma_step_lt_order(x: Step, y: Step, z: Step)
    ensures
        !step_lt(x, x),
        x != y ==> (step_lt(x, y) || step_lt(y, x)),
        !(step_lt(x, y) && step_lt(y, x)),
        step_lt(x, y) && step_lt(y, z) ==> step_lt(x, z),
{
    lemma_text_lt_order(x.name, y.name, z.name);
    lemma_text_lt_order(x.name, z.name, y.name);
    lemma_text_lt_order(y.name, x.name, z.name);
}

/// `key_lt` is a strict total order.
pub proof fn lemma_key_lt_order(a: Seq<Step>, b: Seq<Step>, c: Seq<Step>)
    ensures
        !key_lt(a, a),
        a != b ==> (key_lt(a, b) || key_lt(b, a)),
        !(key_lt(a, b) && key_lt(b, a)),
        key_lt(a, b) && key_lt(b, c) ==> key_lt(a, c),
    decreases a.len(),
{
    if a.len() == 0 && b.len() == 0 {
        assert(a =~= b);
    }
    if a.len() > 0 {
        lemma_key_lt_order(a.drop_first(), a.drop_first(), a.drop_first());
        if b.len() > 0 {
            lemma_step_lt_order(a[0], b[0], a[0]);
            if c.len() > 0 {
                lemma_step_lt_order(a[0], b[0], c[0]);
                lemma_key_lt_order(a.drop_first(), b.drop_first(), c.drop_first());
            } else {
                lemma_key_lt_order(a.drop_first(), b.drop_first(), b.drop_first());
            }
            if a != b && a[0] == b[0] {
                assert(a.drop_first() != b.drop_first()) by {
                    if a.drop_first() == b.drop_first() {
                        assert(a =~= seq![a[0]] + a.drop_first());
                        assert(b =~= seq![b[0]] + b.drop_first());
                    }
                }
            }
        }
    }
}

/// A step as the program holds it.
pub struct ExecStep {
    pub file: bool,
    pub name: Vec<char>,
    pub index: usize,
}

impl View for ExecStep {
    type V = Step;

    open spec fn view(&self) -> Step {
        Step { file: self.file, name: self.name@, index: self.index as int }
    }
}

/// The steps of a key.
pub open spec fn key_view(key: Seq<ExecStep>) -> Seq<Step> {
    key.map_values(|s: ExecStep| s@)
}

/// The keys of a list of keys.
pub open spec fn keys_view(keys: Seq<Vec<ExecStep>>) -> Seq<Seq<Step>> {
    keys.map_values(|k: Vec<ExecStep>| key_view(k@))
}

/// How two steps compare in `step_lt`.
fn compare_step(x: &ExecStep, y: &ExecStep) -> (r: i8)
    ensures
        r < 0 <==> step_lt(x@, y@),
        r == 0 <==> x@ == y@,
        r > 0 <==> step_lt(y@, x@),
{
    proof {
        lemma_step_lt_order(x@, y@, y@);
    }
    if x.file != y.file {
        return if !x.file { -1 } else { 1 };
    }
    let c = compare_text(x.name.as_slice(), y.name.as_slice());
    if c != 0 {
        return c;
    }
    if x.index < y.index {
        -1
    } else if x.index == y.index {
        0
    } else {
        1
    }
}

/// How two keys compare in `key_lt`.
fn compare_key(a: &Vec<ExecStep>, b: &Vec<ExecStep>) -> (r: i8)
    ensures
        r < 0 <==> key_lt(key_view(a@), key_view(b@)),
        r == 0 <==> key_view(a@) == key_view(b@),
        r > 0 <==> key_lt(key_view(b@), key_view(a@)),
{
    let ghost av = key_view(a@);
    let ghost bv = key_view(b@);
    let mut i: usize = 0;
    assert(av.skip(0) =~= av);
    assert(bv.skip(0) =~= bv);
    while i < a.len() && i < b.len()
        invariant
            av == key_view(a@),
            bv == key_view(b@),
            i <= a@.len(),
            i <= b@.len(),
            av.take(i as int) == bv.take(i as int),
            key_lt(av, bv) == key_lt(av.skip(i as int), bv.skip(i as int)),
            key_lt(bv, av) == key_lt(bv.skip(i as int), av.skip(i as int)),
        decreases a@.len() - i,
    {
        let c = compare_step(&a[i], &b[i]);
        assert(av.skip(i as int)[0] == av[i as int]);
        assert(bv.skip(i as int)[0] == bv[i as int]);
        if c != 0 {
            proof {
                lemma_key_lt_order(av, bv, bv);
            }
            return c;
        }
        assert(av.skip(i as int).drop_first() =~= av.skip(i + 1));
        assert(bv.skip(i as int).drop_first() =~= bv.skip(i + 1));
        assert(av.take(i + 1) =~= av.take(i as int).push(av[i as int]));
        assert(bv.take(i + 1) =~= bv.take(i as int).push(bv[i as int]));
        i += 1;
    }
    proof {
        lemma_key_lt_order(av, bv, bv);
    }
    if a.len() == b.len() {
        assert(av =~= av.take(i as int));
        assert(bv =~= bv.take(i as int));
        0
    } else if a.len() < b.len() {
        assert(av =~= av.take(i as int));
        -1
    } else {
        assert(bv =~= bv.take(i as int));
        1
    }
}

/// The keys are in strictly increasing order.
pub open spec fn strictly_sorted(keys: Seq<Seq<Step>>) -> bool {
    forall|i: int, j: int| 0 <= i < j < keys.len() ==> key_lt(#[trigger] keys[i], #[trigger] keys[j])
}

/// Adds `key` to the sorted keys where it is not yet.
fn insert_key(keys: &mut Vec<Vec<ExecStep>>, key: Vec<ExecStep>)
    requires
        strictly_sorted(keys_view(old(keys)@)),
    ensures
        strictly_sorted(keys_view(final(keys)@)),
        forall|x: Seq<Step>| #[trigger] keys_view(final(keys)@).contains(x) <==> (keys_view(
            old(keys)@,
        ).contains(x) || x == key_view(key@)),
{
    let ghost before = keys_view(keys@);
    let ghost k = key_view(key@);
    let mut i: usize = 0;
    while i < keys.len()
        invariant
            before == keys_view(keys@),
            k == key_view(key@),
            strictly_sorted(before),
            i <= keys@.len(),
            forall|j: int| 0 <= j < i ==> key_lt(#[trigger] before[j], k),
        ensures
            before == keys_view(keys@),
            i <= keys@.len(),
            forall|j: int| 0 <= j < i ==> key_lt(#[trigger] before[j], k),
            i < keys@.len() ==> key_lt(k, before[i as int]),
        decreases keys@.len() - i,
    {
        let c = compare_key(&keys[i], &key);
        if c == 0 {
            assert forall|x: Seq<Step>| #[trigger] before.contains(x) <==> (before.contains(x)
                || x == k) by {
                if x == k {
                    assert(before[i as int] == k);
                }
            }
            return;
        }
        if c > 0 {
            break;
        }
        i += 1;
    }
    keys.insert(i, key);
    let ghost after = keys_view(keys@);
    assert(after =~= before.insert(i as int, k));
    assert forall|a: int, b: int| 0 <= a < b < after.len() implies key_lt(
        #[trigger] after[a],
        #[trigger] after[b],
    ) by {
        if i < before.len() {
            assert(key_lt(k, before[i as int]));
        }
        if a < i && b == i {
        } else if a < i && b > i {
            lemma_key_lt_order(after[a], k, after[b]);
            if b - 1 > i {
                assert(key_lt(before[i as int], before[b - 1]));
                lemma_key_lt_order(k, before[i as int], before[b - 1]);
            }
        } else if a == i {
            if b - 1 > i {
                assert(key_lt(before[i as int], before[b - 1]));
                lemma_key_lt_order(k, before[i as int], before[b - 1]);
            }
        } else if a > i {
            assert(after[a] == before[a - 1]);
            assert(after[b] == before[b - 1]);
        } else {
            assert(after[a] == before[a]);
            assert(after[b] == before[b]);
        }
    }
    assert forall|x: Seq<Step>| #[trigger] after.contains(x) <==> (before.contains(x) || x == k) by {
        if after.contains(x) {
            let j = choose|j: int| 0 <= j < after.len() && after[j] == x;
            if j < i {
                assert(before[j] == x);
            } else if j > i {
                assert(before[j - 1] == x);
            }
        }
        if before.contains(x) {
            let j = choose|j: int| 0 <= j < before.len() && before[j] == x;
            if j < i {
                assert(after[j] == x);
            } else {
                assert(after[j + 1] == x);
            }
        }
        if x == k {
            assert(after[i as int] == x);
        }
    }
}


// ---------------------------------------------------------------------------
// What the tree lists.

/// The steps of the directories with the given names.
pub open spec fn dir_steps(names: Seq<Seq<char>>) -> Seq<Step> {
    names.map_values(|n: Seq<char>| Step { file: false, name: n, index: 0 })
}

/// The key of the directory that the `m` first parts of `path` name.
pub open spec fn dir_key(path: Seq<char>, m: int) -> Seq<Step> {
    dir_steps(split(path, '/').take(m))
}

/// The key of the file at `path`, the `index`-th path.
pub open spec fn file_key(path: Seq<char>, index: int) -> Seq<Step> {
    let parts = split(path, '/');
    dir_steps(parts.drop_last()).push(Step { file: true, name: parts.last(), index })
}

/// A key of one of the first `n` paths: the file itself, or one of the
/// directories it lies in.
pub open spec fn listed(paths: Seq<Seq<char>>, n: int, key: Seq<Step>) -> bool {
    ||| exists|k: int| 0 <= k < n && key == #[trigger] file_key(paths[k], k)
    ||| exists|k: int, m: int|
        0 <= k < n && 1 <= m < split(paths[k], '/').len() && key == #[trigger] dir_key(paths[k], m)
}

/// The keys hold every file of the first `n` paths and every directory on
/// the way to it.
pub open spec fn holds_all(keys: Seq<Seq<Step>>, paths: Seq<Seq<char>>, n: int) -> bool {
    &&& forall|k: int| 0 <= k < n ==> keys.contains(#[trigger] file_key(paths[k], k))
    &&& forall|k: int, m: int|
        0 <= k < n && 1 <= m < split(paths[k], '/').len() ==> keys.contains(
            #[trigger] dir_key(paths[k], m),
        )
}

/// The keys hold nothing else.
pub open spec fn only_listed(keys: Seq<Seq<Step>>, paths: Seq<Seq<char>>, n: int) -> bool {
    forall|i: int| 0 <= i < keys.len() ==> listed(paths, n, #[trigger] keys[i])
}

/// A copy of a step.
fn copy_step(s: &ExecStep) -> (c: ExecStep)
    ensures
        c@ == s@,
{
    let name = copy_range(s.name.as_slice(), 0, s.name.len());
    assert(s.name@.subrange(0, s.name@.len() as int) =~= s.name@);
    ExecStep { file: s.file, name, index: s.index }
}

/// A copy of a key.
fn copy_key(key: &Vec<ExecStep>) -> (c: Vec<ExecStep>)
    ensures
        key_view(c@) == key_view(key@),
{
    let mut c: Vec<ExecStep> = Vec::new();
    let mut i: usize = 0;
    while i < key.len()
        invariant
            i <= key@.len(),
            key_view(c@) == key_view(key@).take(i as int),
        decreases key@.len() - i,
    {
        let s = copy_step(&key[i]);
        let ghost prev = key_view(c@);
        c.push(s);
        assert(key_view(c@) =~= prev.push(s@));
        assert(key_view(key@)[i as int] == key@[i as int]@);
        i += 1;
        assert(key_view(c@) =~= key_view(key@).take(i as int));
    }
    assert(key_view(key@).take(i as int) =~= key_view(key@));
    c
}

/// Every key of a listed set that was listed for fewer paths is listed.
proof fn lemma_listed_grows(paths: Seq<Seq<char>>, n: int, key: Seq<Step>)
    requires
        listed(paths, n, key),
    ensures
        listed(paths, n + 1, key),
{
    if exists|k: int| 0 <= k < n && key == #[trigger] file_key(paths[k], k) {
        let k = choose|k: int| 0 <= k < n && key == #[trigger] file_key(paths[k], k);
        assert(0 <= k < n + 1 && key == file_key(paths[k], k));
    } else {
        let (k, m) = choose|k: int, m: int|
            0 <= k < n && 1 <= m < split(paths[k], '/').len() && key == #[trigger] dir_key(
                paths[k],
                m,
            );
        assert(0 <= k < n + 1 && 1 <= m < split(paths[k], '/').len() && key == dir_key(paths[k], m));
    }
}

/// The keys of all paths, sorted, each once.
fn collect_keys(paths: &[&str]) -> (keys: Vec<Vec<ExecStep>>)
    ensures
        strictly_sorted(keys_view(keys@)),
        holds_all(keys_view(keys@), paths@.map_values(|p: &str| p@), paths@.len() as int),
        only_listed(keys_view(keys@), paths@.map_values(|p: &str| p@), paths@.len() as int),
{
    let ghost ps = paths@.map_values(|p: &str| p@);
    let mut keys: Vec<Vec<ExecStep>> = Vec::new();
    let mut k: usize = 0;
    while k < paths.len()
        invariant
            ps == paths@.map_values(|p: &str| p@),
            k <= paths@.len(),
            strictly_sorted(keys_view(keys@)),
            holds_all(keys_view(keys@), ps, k as int),
            only_listed(keys_view(keys@), ps, k as int),
        decreases paths@.len() - k,
    {
        let chars = chars_of(paths[k]);
        let parts = split_chars(chars.as_slice(), '/');
        let ghost pv = views(parts@);
        assert(pv == split(ps[k as int], '/'));
        proof {
            lemma_split_nonempty(ps[k as int], '/');
        }
        let mut running: Vec<ExecStep> = Vec::new();
        let mut m: usize = 0;
        let last = parts.len() - 1;
        let ghost start = keys_view(keys@);
        assert(pv.take(0) =~= Seq::<Seq<char>>::empty());
        assert(key_view(running@) =~= dir_steps(pv.take(0)));
        while m < last
            invariant
                ps == paths@.map_values(|p: &str| p@),
                k < paths@.len(),
                pv == views(parts@),
                pv == split(ps[k as int], '/'),
                pv.len() >= 1,
                last == pv.len() - 1,
                m <= last,
                key_view(running@) == dir_steps(pv.take(m as int)),
                strictly_sorted(keys_view(keys@)),
                forall|x: Seq<Step>| #[trigger] start.contains(x) ==> keys_view(keys@).contains(x),
                forall|j: int| 1 <= j <= m ==> keys_view(keys@).contains(#[trigger] dir_key(ps[k as int], j)),
                only_listed(keys_view(keys@), ps, k + 1),
            decreases pv.len() - m,
        {
            let name = copy_range(parts[m].as_slice(), 0, parts[m].len());
            assert(parts@[m as int]@.subrange(0, parts@[m as int]@.len() as int) =~= pv[m as int]);
            let step = ExecStep { file: false, name, index: 0 };
            let ghost prev = key_view(running@);
            running.push(step);
            assert(key_view(running@) =~= prev.push(step@));
            assert(pv.take(m + 1) =~= pv.take(m as int).push(pv[m as int]));
            m += 1;
            assert(key_view(running@) =~= dir_steps(pv.take(m as int)));
            let key = copy_key(&running);
            let ghost before = keys_view(keys@);
            insert_key(&mut keys, key);
            assert(key_view(running@) == dir_key(ps[k as int], m as int));
            assert forall|i: int| 0 <= i < keys_view(keys@).len() implies listed(
                ps,
                k + 1,
                #[trigger] keys_view(keys@)[i],
            ) by {
                let x = keys_view(keys@)[i];
                assert(keys_view(keys@).contains(x));
                if x == dir_key(ps[k as int], m as int) {
                    assert(1 <= m < split(ps[k as int], '/').len());
                } else {
                    let j = choose|j: int| 0 <= j < before.len() && before[j] == x;
                    assert(listed(ps, k + 1, before[j]));
                }
            }
        }
        let name = copy_range(parts[last].as_slice(), 0, parts[last].len());
        assert(parts@[last as int]@.subrange(0, parts@[last as int]@.len() as int) =~= pv.last());
        let step = ExecStep { file: true, name, index: k };
        let ghost prev = key_view(running@);
        running.push(step);
        assert(key_view(running@) =~= prev.push(step@));
        assert(pv.take(m as int) =~= pv.drop_last());
        assert(key_view(running@) =~= file_key(ps[k as int], k as int));
        let ghost before = keys_view(keys@);
        insert_key(&mut keys, running);
        proof {
            let after = keys_view(keys@);
            assert forall|i: int| 0 <= i < after.len() implies listed(ps, k + 1, #[trigger] after[i]) by {
                let x = after[i];
                assert(after.contains(x));
                if x == file_key(ps[k as int], k as int) {
                    assert(0 <= k < k + 1);
                } else {
                    let j = choose|j: int| 0 <= j < before.len() && before[j] == x;
                    assert(listed(ps, k + 1, before[j]));
                }
            }
            assert forall|kk: int| 0 <= kk < k + 1 implies after.contains(#[trigger] file_key(ps[kk], kk)) by {
                if kk < k {
                    assert(start.contains(file_key(ps[kk], kk)));
                }
            }
            assert forall|kk: int, mm: int|
                0 <= kk < k + 1 && 1 <= mm < split(ps[kk], '/').len() implies after.contains(
                #[trigger] dir_key(ps[kk], mm),
            ) by {
                if kk < k {
                    assert(start.contains(dir_key(ps[kk], mm)));
                } else {
                    assert(before.contains(dir_key(ps[kk], mm)));
                }
            }
            assert forall|i: int| 0 <= i < start.len() implies listed(ps, k + 1, #[trigger] start[i]) by {
                lemma_listed_grows(ps, k as int, start[i]);
            }
        }
        k += 1;
    }
    keys
}


// ---------------------------------------------------------------------------
// The entries of the tree.

/// An entry of the tree: a directory, with the position after the entries
/// it holds, or a file, with the index of its path.
pub enum Entry {
    Dir { path: String, name: String, depth: usize, end: usize },
    File { index: usize, name: String, depth: usize },
}

pub enum EntryView {
    Dir { path: Seq<char>, name: Seq<char>, depth: int, end: int },
    File { index: int, name: Seq<char>, depth: int },
}

impl View for Entry {
    type V = EntryView;

    open spec fn view(&self) -> EntryView {
        match self {
            Entry::Dir { path, name, depth, end } => EntryView::Dir {
                path: path@,
                name: name@,
                depth: *depth as int,
                end: *end as int,
            },
            Entry::File { index, name, depth } => EntryView::File {
                index: *index as int,
                name: name@,
                depth: *depth as int,
            },
        }
    }
}

pub open spec fn entry_views(entries: Seq<Entry>) -> Seq<EntryView> {
    entries.map_values(|e: Entry| e@)
}

/// The path of a directory: each name followed by `/`.
pub open spec fn dir_path(key: Seq<Step>) -> Seq<char>
    decreases key.len(),
{
    if key.len() == 0 {
        Seq::empty()
    } else {
        dir_path(key.drop_last()) + key.last().name.push('/')
    }
}

/// `a` begins `b`.
pub open spec fn key_prefix(a: Seq<Step>, b: Seq<Step>) -> bool {
    a.len() <= b.len() && b.take(a.len() as int) == a
}

/// The first position from `j` on whose key does not lie under the key at
/// `i`, or the number of keys.
pub open spec fn end_from(keys: Seq<Seq<Step>>, i: int, j: int) -> int
    decreases keys.len() - j,
{
    if j < 0 || j >= keys.len() {
        keys.len() as int
    } else if !key_prefix(keys[i], keys[j]) {
        j
    } else {
        end_from(keys, i, j + 1)
    }
}

/// The entry for the key at position `i`.
pub open spec fn entry_at(keys: Seq<Seq<Step>>, i: int) -> EntryView {
    let key = keys[i];
    let last = key.last();
    if last.file {
        EntryView::File { index: last.index, name: last.name, depth: key.len() - 1 }
    } else {
        EntryView::Dir {
            path: dir_path(key),
            name: last.name,
            depth: key.len() - 1,
            end: end_from(keys, i, i + 1),
        }
    }
}

proof fn lemma_end_from(keys: Seq<Seq<Step>>, i: int, j: int)
    requires
        0 <= j <= keys.len(),
    ensures
        j <= end_from(keys, i, j) <= keys.len(),
    decreases keys.len() - j,
{
    if j < keys.len() && key_prefix(keys[i], keys[j]) {
        lemma_end_from(keys, i, j + 1);
    }
}

/// A listed key has a step, and a file as its last step only when it is
/// the key of a file, whose index is that of one of the paths.
proof fn lemma_listed_shape(paths: Seq<Seq<char>>, n: int, key: Seq<Step>)
    requires
        listed(paths, n, key),
    ensures
        key.len() >= 1,
        key.last().file ==> 0 <= key.last().index < n,
        key.last().file ==> key.last().index < paths.len() || n > paths.len(),
{
    if exists|k: int| 0 <= k < n && key == #[trigger] file_key(paths[k], k) {
        let k = choose|k: int| 0 <= k < n && key == #[trigger] file_key(paths[k], k);
        assert(key.last().index == k);
    } else {
        let (k, m) = choose|k: int, m: int|
            0 <= k < n && 1 <= m < split(paths[k], '/').len() && key == #[trigger] dir_key(
                paths[k],
                m,
            );
        assert(key.len() == m);
        assert(!key.last().file);
    }
}

/// `a` begins `b`, as `key_prefix` states it.
fn starts_key(b: &Vec<ExecStep>, a: &Vec<ExecStep>) -> (r: bool)
    ensures
        r == key_prefix(key_view(a@), key_view(b@)),
{
    if a.len() > b.len() {
        return false;
    }
    let mut i: usize = 0;
    while i < a.len()
        invariant
            a@.len() <= b@.len(),
            i <= a@.len(),
            forall|j: int| 0 <= j < i ==> key_view(b@)[j] == key_view(a@)[j],
        decreases a@.len() - i,
    {
        if compare_step(&b[i], &a[i]) != 0 {
            assert(key_view(b@).take(a@.len() as int)[i as int] != key_view(a@)[i as int]);
            return false;
        }
        i += 1;
    }
    assert(key_view(b@).take(a@.len() as int) =~= key_view(a@));
    true
}

/// The path of the directory with the given key.
fn path_of(key: &Vec<ExecStep>) -> (p: String)
    ensures
        p@ == dir_path(key_view(key@)),
{
    let ghost kv = key_view(key@);
    let mut p = String::new();
    let mut t: usize = 0;
    assert(kv.take(0) =~= Seq::<Step>::empty());
    while t < key.len()
        invariant
            kv == key_view(key@),
            t <= key@.len(),
            p@ == dir_path(kv.take(t as int)),
        decreases key@.len() - t,
    {
        let name = &key[t].name;
        let mut c: usize = 0;
        let ghost start = p@;
        while c < name.len()
            invariant
                c <= name@.len(),
                p@ == start + name@.take(c as int),
            decreases name@.len() - c,
        {
            p.push(name[c]);
            c += 1;
            assert(p@ =~= start + name@.take(c as int));
        }
        p.push('/');
        assert(name@.take(c as int) =~= name@);
        assert(kv.take(t + 1).drop_last() =~= kv.take(t as int));
        assert(p@ =~= dir_path(kv.take(t + 1)));
        t += 1;
    }
    assert(kv.take(t as int) =~= kv);
    p
}

/// The entries for the sorted keys.
fn entries_of(keys: &Vec<Vec<ExecStep>>) -> (entries: Vec<Entry>)
    requires
        forall|i: int| 0 <= i < keys@.len() ==> (#[trigger] keys@[i])@.len() >= 1,
    ensures
        entries@.len() == keys@.len(),
        forall|i: int| 0 <= i < keys@.len() ==> (#[trigger] entries@[i])@ == entry_at(keys_view(keys@), i),
{
    let ghost kv = keys_view(keys@);
    let mut entries: Vec<Entry> = Vec::new();
    let mut i: usize = 0;
    while i < keys.len()
        invariant
            kv == keys_view(keys@),
            forall|i: int| 0 <= i < keys@.len() ==> (#[trigger] keys@[i])@.len() >= 1,
            i <= keys@.len(),
            entries@.len() == i,
            forall|j: int| 0 <= j < i ==> (#[trigger] entries@[j])@ == entry_at(kv, j),
        decreases keys@.len() - i,
    {
        let key = &keys[i];
        assert(key@.len() >= 1);
        let n = key.len();
        let last = &key[n - 1];
        assert(kv[i as int] == key_view(key@));
        assert(kv[i as int].last() == last@);
        let name = string_of(last.name.as_slice(), 0, last.name.len());
        assert(last.name@.subrange(0, last.name@.len() as int) =~= last.name@);
        let entry = if last.file {
            Entry::File { index: last.index, name, depth: n - 1 }
        } else {
            let mut end = i + 1;
            proof {
                lemma_end_from(kv, i as int, i + 1);
            }
            while end < keys.len() && starts_key(&keys[end], key)
                invariant
                    kv == keys_view(keys@),
                    i < end <= keys@.len(),
                    key == &keys@[i as int],
                    end_from(kv, i as int, i + 1) == end_from(kv, i as int, end as int),
                decreases keys@.len() - end,
            {
                end += 1;
            }
            let path = path_of(key);
            Entry::Dir { path, name, depth: n - 1, end }
        };
        entries.push(entry);
        i += 1;
    }
    entries
}


// ---------------------------------------------------------------------------
// The tree and what it shows.

/// The file tree: every entry, the positions of the entries shown, and for
/// each path whether the filter lets it through.
pub struct Tree {
    pub all: Vec<Entry>,
    pub visible: Vec<usize>,
    pub shown: Vec<bool>,
    pub filter: String,
    /// Room for the label of an entry, reused from one to the next.
    pub label: String,
    pub dirty: bool,
    /// The key of each entry, in order.
    pub keys: Ghost<Seq<Seq<Step>>>,
}

/// The paths as characters.
pub open spec fn path_views(paths: Seq<&str>) -> Seq<Seq<char>> {
    paths.map_values(|p: &str| p@)
}

impl Tree {
    /// Directories end after their own position and within the tree, and
    /// files name the index of a path that the tree knows.
    pub open spec fn wf(&self) -> bool {
        forall|i: int|
            0 <= i < self.all@.len() ==> match #[trigger] self.all@[i]@ {
                EntryView::Dir { end, .. } => i < end <= self.all@.len(),
                EntryView::File { index, .. } => 0 <= index < self.shown@.len(),
            }
    }

    /// The tree lists exactly the files of `paths` and the directories they
    /// lie in, each once, in key order.
    pub open spec fn lists(&self, paths: Seq<Seq<char>>) -> bool {
        let keys = self.keys@;
        &&& strictly_sorted(keys)
        &&& holds_all(keys, paths, paths.len() as int)
        &&& only_listed(keys, paths, paths.len() as int)
        &&& self.all@.len() == keys.len()
        &&& forall|i: int| 0 <= i < keys.len() ==> (#[trigger] self.all@[i])@ == entry_at(keys, i)
    }

    /// The tree of `paths`: every directory before what it holds, the
    /// directories of a level by name before its files, the files by name
    /// and then by index. Every path is shown, and the visible entries are
    /// yet to be computed.
    pub fn new(paths: &[&str]) -> (tree: Tree)
        ensures
            tree.lists(path_views(paths@)),
            tree.wf(),
            tree.shown@ == Seq::new(paths@.len(), |i: int| true),
            tree.visible@.len() == 0,
            tree.filter@.len() == 0,
            tree.label@.len() == 0,
            tree.dirty,
    {
        let keys = collect_keys(paths);
        let ghost ps = path_views(paths@);
        let ghost kv = keys_view(keys@);
        proof {
            assert forall|i: int| 0 <= i < keys@.len() implies (#[trigger] keys@[i])@.len() >= 1 by {
                assert(listed(ps, ps.len() as int, kv[i]));
                lemma_listed_shape(ps, ps.len() as int, kv[i]);
            }
        }
        let all = entries_of(&keys);
        let mut shown: Vec<bool> = Vec::new();
        let mut k: usize = 0;
        while k < paths.len()
            invariant
                k <= paths@.len(),
                shown@ == Seq::new(k as nat, |i: int| true),
            decreases paths@.len() - k,
        {
            shown.push(true);
            k += 1;
            assert(shown@ =~= Seq::new(k as nat, |i: int| true));
        }
        let tree = Tree {
            all,
            visible: Vec::new(),
            shown,
            filter: String::new(),
            label: String::new(),
            dirty: true,
            keys: Ghost(kv),
        };
        proof {
            assert forall|i: int| 0 <= i < tree.all@.len() implies match #[trigger] tree.all@[i]@ {
                EntryView::Dir { end, .. } => i < end <= tree.all@.len(),
                EntryView::File { index, .. } => 0 <= index < tree.shown@.len(),
            } by {
                assert(listed(ps, ps.len() as int, kv[i]));
                lemma_listed_shape(ps, ps.len() as int, kv[i]);
                lemma_end_from(kv, i, i + 1);
            }
        }
        tree
    }
}


/// The filter lets a path through: an empty query lets everything
/// through, any other the paths whose lowercase form contains it.
pub open spec fn passes(query: Seq<char>, path: Seq<char>) -> bool {
    query.len() == 0 || contains_text(lowercase(path), query)
}

/// What the filter shows after it changed to `query`: each path that
/// has a place, by `passes`; the places beyond the paths stay as they were.
pub open spec fn refiltered(shown: Seq<bool>, paths: Seq<Seq<char>>, query: Seq<char>) -> Seq<bool> {
    Seq::new(shown.len(), |i: int| if i < paths.len() { passes(query, paths[i]) } else { shown[i] })
}

/// The entry is a file that the filter shows.
pub open spec fn shows_file(entry: EntryView, shown: Seq<bool>) -> bool {
    match entry {
        EntryView::File { index, .. } => shown[index],
        _ => false,
    }
}

/// Some entry in `from..to` is a file that the filter shows.
pub open spec fn any_shown(all: Seq<EntryView>, shown: Seq<bool>, from: int, to: int) -> bool {
    exists|p: int| from <= p < to && #[trigger] shows_file(all[p], shown)
}

/// The positions shown from `pos` on: a file where the filter shows it; a
/// directory where it holds such a file, its contents too unless it is
/// closed.
pub open spec fn visible_from(
    all: Seq<EntryView>,
    shown: Seq<bool>,
    closed: Seq<Seq<char>>,
    pos: int,
) -> Seq<int>
    decreases all.len() - pos,
{
    if pos < 0 || pos >= all.len() {
        Seq::empty()
    } else {
        match all[pos] {
            EntryView::Dir { path, end, .. } => {
                let holds = any_shown(all, shown, pos + 1, end);
                let head = if holds { seq![pos] } else { Seq::empty() };
                if (!holds || closed.contains(path)) && end > pos {
                    if end < all.len() {
                        head + visible_from(all, shown, closed, end)
                    } else {
                        head
                    }
                } else {
                    head + visible_from(all, shown, closed, pos + 1)
                }
            },
            EntryView::File { index, .. } => {
                let head = if shown[index] { seq![pos] } else { Seq::empty() };
                head + visible_from(all, shown, closed, pos + 1)
            },
        }
    }
}

/// The paths of the closed directories as characters.
pub open spec fn closed_views(closed: Seq<String>) -> Seq<Seq<char>> {
    closed.map_values(|s: String| s@)
}

/// `closed` holds `path`.
fn holds_path(closed: &[String], path: &String) -> (r: bool)
    ensures
        r == closed_views(closed@).contains(path@),
{
    let mut i: usize = 0;
    while i < closed.len()
        invariant
            i <= closed@.len(),
            forall|j: int| 0 <= j < i ==> closed@[j]@ != path@,
        decreases closed@.len() - i,
    {
        if closed[i] == *path {
            assert(closed_views(closed@)[i as int] == path@);
            return true;
        }
        i += 1;
    }
    assert forall|j: int| 0 <= j < closed_views(closed@).len() implies closed_views(closed@)[j] != path@ by {
        assert(closed_views(closed@)[j] == closed@[j]@);
    }
    false
}

/// Some entry in `from..to` is a file that the filter shows.
fn any_file_shown(all: &Vec<Entry>, shown: &Vec<bool>, from: usize, to: usize) -> (r: bool)
    requires
        from <= to <= all@.len(),
        forall|i: int| 0 <= i < all@.len() ==> match #[trigger] all@[i]@ {
            EntryView::File { index, .. } => 0 <= index < shown@.len(),
            _ => true,
        },
    ensures
        r == any_shown(entry_views(all@), shown@, from as int, to as int),
{
    let ghost av = entry_views(all@);
    let mut p = from;
    while p < to
        invariant
            from <= p <= to <= all@.len(),
            av == entry_views(all@),
            forall|i: int| 0 <= i < all@.len() ==> match #[trigger] all@[i]@ {
                EntryView::File { index, .. } => 0 <= index < shown@.len(),
                _ => true,
            },
            forall|q: int| from <= q < p ==> !shows_file(#[trigger] av[q], shown@),
        decreases to - p,
    {
        assert(av[p as int] == all@[p as int]@);
        match &all[p] {
            Entry::File { index, .. } => {
                if shown[*index] {
                    assert(shows_file(av[p as int], shown@));
                    return true;
                }
            },
            Entry::Dir { .. } => {},
        }
        p += 1;
    }
    false
}

impl Tree {
    /// Applies `filter`, trimmed, and the closed directories. When the
    /// filter changed, each path is shown again by whether its lowercase
    /// form contains the lowercase filter. When anything changed, the
    /// visible entries are computed anew.
    pub fn update(&mut self, paths: &[&str], filter: &str, closed: &[String])
        requires
            old(self).wf(),
        ensures
            final(self).wf(),
            final(self).all@ == old(self).all@,
            final(self).keys@ == old(self).keys@,
            final(self).filter@ == trim(filter@),
            final(self).label@ == old(self).label@,
            ({
                let changed = old(self).filter@ != trim(filter@);
                let query = lowercase(trim(filter@));
                &&& final(self).shown@ == (if changed {
                    refiltered(old(self).shown@, path_views(paths@), query)
                } else {
                    old(self).shown@
                })
                &&& !final(self).dirty
                &&& final(self).visible@.map_values(|p: usize| p as int) == (if changed
                    || old(self).dirty {
                    visible_from(
                        entry_views(final(self).all@),
                        final(self).shown@,
                        closed_views(closed@),
                        0,
                    )
                } else {
                    old(self).visible@.map_values(|p: usize| p as int)
                })
            }),
    {
        let ghost ps = path_views(paths@);
        let filter = trimmed(filter);
        let current = chars_of(self.filter.as_str());
        if !same_chars(current.as_slice(), filter.as_slice()) {
            self.filter = string_of(filter.as_slice(), 0, filter.len());
            assert(filter@.subrange(0, filter@.len() as int) =~= filter@);
            let query = to_lowercase(self.filter.as_str());
            let empty = query.as_str().unicode_len() == 0;
            let ghost start = self.shown@;
            let ghost q = query@;
            let n = if self.shown.len() < paths.len() { self.shown.len() } else { paths.len() };
            let mut i: usize = 0;
            while i < n
                invariant
                    ps == path_views(paths@),
                    q == query@,
                    empty == (q.len() == 0),
                    n <= start.len(),
                    n <= paths@.len(),
                    i <= n,
                    self.shown@.len() == start.len(),
                    forall|j: int| 0 <= j < i ==> self.shown@[j] == passes(q, ps[j]),
                    forall|j: int| i <= j < start.len() ==> self.shown@[j] == start[j],
                    self.all@ == old(self).all@,
                    self.keys@ == old(self).keys@,
                    self.label@ == old(self).label@,
                    self.filter@ == filter@,
                    old(self).wf(),
                decreases n - i,
            {
                let lower = to_lowercase(paths[i]);
                let lower = chars_of(lower.as_str());
                let pass = empty || find_text(lower.as_slice(), query.as_str()).is_some();
                assert(ps[i as int] == paths@[i as int]@);
                self.shown.set(i, pass);
                i += 1;
            }
            assert(self.shown@ =~= refiltered(start, ps, q));
            self.dirty = true;
        }
        if !self.dirty {
            return;
        }
        self.dirty = false;
        self.visible.clear();
        let ghost av = entry_views(self.all@);
        let ghost cv = closed_views(closed@);
        let ghost shown_now = self.shown@;
        let ghost filter_now = self.filter@;
        let mut pos: usize = 0;
        assert(self.visible@.map_values(|p: usize| p as int) =~= Seq::empty());
        while pos < self.all.len()
            invariant
                self.all@ == old(self).all@,
                self.keys@ == old(self).keys@,
                self.label@ == old(self).label@,
                self.shown@ == shown_now,
                self.filter@ == filter_now,
                !self.dirty,
                av == entry_views(self.all@),
                cv == closed_views(closed@),
                pos <= self.all@.len(),
                self.wf(),
                self.visible@.map_values(|p: usize| p as int) + visible_from(av, self.shown@, cv, pos as int)
                    == visible_from(av, self.shown@, cv, 0),
            decreases self.all@.len() - pos,
        {
            let ghost before = self.visible@.map_values(|p: usize| p as int);
            assert(av[pos as int] == self.all@[pos as int]@);
            match &self.all[pos] {
                Entry::Dir { path, end, .. } => {
                    let holds = any_file_shown(&self.all, &self.shown, pos + 1, *end);
                    if holds {
                        self.visible.push(pos);
                        assert(self.visible@.map_values(|p: usize| p as int) =~= before.push(pos as int));
                    }
                    if !holds || holds_path(closed, path) {
                        let next = *end;
                        assert(visible_from(av, self.shown@, cv, pos as int) == (if holds { seq![pos as int] } else { Seq::empty() }) + visible_from(av, self.shown@, cv, next as int));
                        assert(self.visible@.map_values(|p: usize| p as int) + visible_from(av, self.shown@, cv, next as int) =~= before + visible_from(av, self.shown@, cv, pos as int));
                        pos = next;
                        continue;
                    }
                    assert(self.visible@.map_values(|p: usize| p as int) + visible_from(av, self.shown@, cv, pos + 1) =~= before + visible_from(av, self.shown@, cv, pos as int));
                },
                Entry::File { index, .. } => {
                    if self.shown[*index] {
                        self.visible.push(pos);
                        assert(self.visible@.map_values(|p: usize| p as int) =~= before.push(pos as int));
                    }
                    assert(self.visible@.map_values(|p: usize| p as int) + visible_from(av, self.shown@, cv, pos + 1) =~= before + visible_from(av, self.shown@, cv, pos as int));
                },
            }
            pos += 1;
        }
        assert(visible_from(av, self.shown@, cv, pos as int) =~= Seq::empty());
        assert(self.visible@.map_values(|p: usize| p as int) =~= visible_from(av, self.shown@, cv, 0));
    }
}

/// Directories end after their own position and within the entries, and
/// files name a place of `shown`.
pub open spec fn entries_fit(all: Seq<EntryView>, shown: Seq<bool>) -> bool {
    forall|i: int|
        0 <= i < all.len() ==> match #[trigger] all[i] {
            EntryView::Dir { end, .. } => i < end <= all.len(),
            EntryView::File { index, .. } => 0 <= index < shown.len(),
        }
}

/// A visible entry is a file the filter shows, or a directory that holds
/// one.
pub open spec fn worth_showing(all: Seq<EntryView>, shown: Seq<bool>, p: int) -> bool {
    match all[p] {
        EntryView::Dir { end, .. } => any_shown(all, shown, p + 1, end),
        EntryView::File { index, .. } => shown[index],
    }
}

/// The tree shows its entries in order, each at most once, and only files
/// the filter shows and directories that hold one.
pub proof fn visible_law(all: Seq<EntryView>, shown: Seq<bool>, closed: Seq<Seq<char>>, pos: int)
    requires
        entries_fit(all, shown),
        0 <= pos,
    ensures
        forall|k: int|
            0 <= k < visible_from(all, shown, closed, pos).len() ==> pos <= #[trigger] visible_from(
                all,
                shown,
                closed,
                pos,
            )[k] < all.len() && worth_showing(all, shown, visible_from(all, shown, closed, pos)[k]),
        forall|j: int, k: int|
            0 <= j < k < visible_from(all, shown, closed, pos).len() ==> #[trigger] visible_from(
                all,
                shown,
                closed,
                pos,
            )[j] < #[trigger] visible_from(all, shown, closed, pos)[k],
    decreases all.len() - pos,
{
    if pos < all.len() {
        let v = visible_from(all, shown, closed, pos);
        let next = match all[pos] {
            EntryView::Dir { path, end, .. } => {
                let holds = any_shown(all, shown, pos + 1, end);
                if (!holds || closed.contains(path)) && end > pos {
                    end
                } else {
                    pos + 1
                }
            },
            EntryView::File { .. } => pos + 1,
        };
        assert(pos < next <= all.len());
        visible_law(all, shown, closed, next);
        let rest = visible_from(all, shown, closed, next);
        let head: Seq<int> = if v.len() > rest.len() { seq![pos] } else { Seq::empty() };
        assert(v =~= head + rest);
        assert forall|k: int| 0 <= k < v.len() implies pos <= #[trigger] v[k] < all.len() && worth_showing(
            all,
            shown,
            v[k],
        ) by {
            if k >= head.len() {
                assert(v[k] == rest[k - head.len()]);
            }
        }
        assert forall|j: int, k: int| 0 <= j < k < v.len() implies #[trigger] v[j] < #[trigger] v[k] by {
            if j >= head.len() {
                assert(v[j] == rest[j - head.len()]);
            }
            assert(v[k] == rest[k - head.len()]);
        }
    }
}

/// `n` spaces.
pub open spec fn spaces(n: nat) -> Seq<char> {
    Seq::new(n, |i: int| ' ')
}

/// The label of an entry in the tree, indented four spaces a level: a
/// directory with its chevron, pointing right when closed and down when
/// open; a file lined up with the directory names, ticked once viewed.
pub open spec fn entry_label_spec(entry: EntryView, closed: bool, viewed: bool) -> Seq<char> {
    match entry {
        EntryView::Dir { name, depth, .. } => spaces((depth * 4) as nat) + seq![if closed { '▸' } else { '▾' }]
            + "  "@ + name,
        EntryView::File { name, depth, .. } => spaces((depth * 4) as nat) + "    "@ + name + if viewed {
            "  ✓"@
        } else {
            Seq::empty()
        },
    }
}

/// Writes the label of `entry` into `label`, in place of what it held:
/// `closed` tells whether a directory is closed, `viewed` whether a file
/// was viewed.
pub fn write_label(label: &mut String, entry: &Entry, closed: bool, viewed: bool)
    ensures
        final(label)@ == entry_label_spec(entry@, closed, viewed),
{
    *label = String::new();
    let depth = match entry {
        Entry::Dir { depth, .. } => *depth,
        Entry::File { depth, .. } => *depth,
    };
    let mut level: usize = 0;
    while level < depth
        invariant
            level <= depth,
            label@ == spaces((level * 4) as nat),
        decreases depth - level,
    {
        label.push(' ');
        label.push(' ');
        label.push(' ');
        label.push(' ');
        level += 1;
        assert(label@ =~= spaces((level * 4) as nat));
    }
    match entry {
        Entry::Dir { name, .. } => {
            label.push(if closed { '▸' } else { '▾' });
            append_text(label, "  ");
            append_text(label, name.as_str());
        },
        Entry::File { name, .. } => {
            append_text(label, "    ");
            append_text(label, name.as_str());
            if viewed {
                append_text(label, "  ✓");
            }
        },
    }
}

/// The tree lists every path as exactly one file entry, named after the
/// last part of the path and as deep as the directories above it.
pub proof fn one_entry_law(keys: Seq<Seq<Step>>, paths: Seq<Seq<char>>, k: int)
    requires
        strictly_sorted(keys),
        holds_all(keys, paths, paths.len() as int),
        only_listed(keys, paths, paths.len() as int),
        0 <= k < paths.len(),
    ensures
        exists|i: int|
            0 <= i < keys.len() && #[trigger] entry_at(keys, i) == (EntryView::File {
                index: k,
                name: split(paths[k], '/').last(),
                depth: split(paths[k], '/').len() - 1,
            }),
        forall|i: int, j: int|
            0 <= i < keys.len() && 0 <= j < keys.len() && i != j && (#[trigger] entry_at(keys, i) matches EntryView::File {
                index,
                ..
            } && index == k) ==> !(#[trigger] entry_at(keys, j) matches EntryView::File { index, .. } && index == k),
{
    let key = file_key(paths[k], k);
    assert(keys.contains(key));
    let i = choose|i: int| 0 <= i < keys.len() && keys[i] == key;
    lemma_split_nonempty(paths[k], '/');
    assert(key.len() == split(paths[k], '/').len());
    assert(entry_at(keys, i) == (EntryView::File {
        index: k,
        name: split(paths[k], '/').last(),
        depth: split(paths[k], '/').len() - 1,
    }));
    assert forall|a: int, b: int|
        0 <= a < keys.len() && 0 <= b < keys.len() && a != b && (#[trigger] entry_at(keys, a) matches EntryView::File {
            index,
            ..
        } && index == k) implies !(#[trigger] entry_at(keys, b) matches EntryView::File { index, .. } && index == k) by {
        if entry_at(keys, b) matches EntryView::File { index, .. } && index == k {
            assert(keys[a] == key) by {
                lemma_file_key_of(keys, paths, a, k);
            }
            assert(keys[b] == key) by {
                lemma_file_key_of(keys, paths, b, k);
            }
            lemma_key_lt_order(key, key, key);
            if a < b {
                assert(key_lt(keys[a], keys[b]));
            } else {
                assert(key_lt(keys[b], keys[a]));
            }
        }
    }
}

/// A listed key that ends in the file of path `k` is that file's key.
proof fn lemma_file_key_of(keys: Seq<Seq<Step>>, paths: Seq<Seq<char>>, a: int, k: int)
    requires
        only_listed(keys, paths, paths.len() as int),
        0 <= a < keys.len(),
        entry_at(keys, a) matches EntryView::File { index, .. } && index == k,
    ensures
        keys[a] == file_key(paths[k], k),
{
    let key = keys[a];
    assert(listed(paths, paths.len() as int, key));
    lemma_listed_shape(paths, paths.len() as int, key);
    assert(key.last().file);
    if exists|j: int| 0 <= j < paths.len() && key == #[trigger] file_key(paths[j], j) {
        let j = choose|j: int| 0 <= j < paths.len() && key == #[trigger] file_key(paths[j], j);
        assert(key.last().index == j);
    } else {
        let (j, m) = choose|j: int, m: int|
            0 <= j < paths.len() && 1 <= m < split(paths[j], '/').len() && key == #[trigger] dir_key(
                paths[j],
                m,
            );
        assert(key.len() == m);
        assert(!key.last().file);
    }
}

/// A key that begins another and differs from it comes first.
proof fn lemma_prefix_first(a: Seq<Step>, b: Seq<Step>)
    requires
        key_prefix(a, b),
        a != b,
    ensures
        key_lt(a, b),
    decreases a.len(),
{
    if a.len() == 0 {
        if b.len() == 0 {
            assert(a =~= b);
        }
    } else {
        assert(b[0] == b.take(a.len() as int)[0]);
        assert(a[0] == b[0]);
        assert(a.drop_first() != b.drop_first()) by {
            if a.drop_first() == b.drop_first() {
                assert(a =~= seq![a[0]] + a.drop_first());
                assert(b =~= seq![b[0]] + b.drop_first());
            }
        }
        assert(b.drop_first().take(a.drop_first().len() as int) =~= a.drop_first()) by {
            assert(b.take(a.len() as int) == a);
        }
        lemma_prefix_first(a.drop_first(), b.drop_first());
        assert(key_lt(a, b) == key_lt(a.drop_first(), b.drop_first()));
    }
}

/// What lies between a key and one that it begins is begun by it too.
proof fn lemma_prefix_between(a: Seq<Step>, b: Seq<Step>, c: Seq<Step>)
    requires
        key_prefix(a, c),
        key_lt(a, b),
        key_lt(b, c),
    ensures
        key_prefix(a, b),
    decreases a.len(),
{
    if a.len() == 0 {
        assert(b.take(0) =~= a);
    } else {
        assert(c[0] == c.take(a.len() as int)[0]);
        assert(c[0] == a[0]);
        assert(b.len() > 0);
        lemma_step_lt_order(a[0], b[0], a[0]);
        if b[0] != a[0] {
            assert(step_lt(a[0], b[0]));
            assert(step_lt(b[0], c[0]));
            assert(false);
        }
        assert(c.drop_first().take(a.drop_first().len() as int) =~= a.drop_first()) by {
            assert(c.take(a.len() as int) == a);
        }
        assert(key_lt(a.drop_first(), b.drop_first()));
        assert(key_lt(b.drop_first(), c.drop_first()));
        lemma_prefix_between(a.drop_first(), b.drop_first(), c.drop_first());
        assert(b.take(a.len() as int) =~= seq![b[0]] + b.drop_first().take(a.drop_first().len() as int));
        assert(a =~= seq![a[0]] + a.drop_first());
    }
}

/// From `j` to where `end_from` stops, every key is begun by the key at
/// `i`; where it stops short of the end, that key is not.
proof fn lemma_end_from_range(keys: Seq<Seq<Step>>, i: int, j: int)
    requires
        0 <= i < keys.len(),
        0 <= j <= keys.len(),
    ensures
        forall|p: int| j <= p < end_from(keys, i, j) ==> key_prefix(keys[i], #[trigger] keys[p]),
        end_from(keys, i, j) < keys.len() ==> !key_prefix(keys[i], keys[end_from(keys, i, j)]),
        j <= end_from(keys, i, j) <= keys.len(),
    decreases keys.len() - j,
{
    if j < keys.len() && key_prefix(keys[i], keys[j]) {
        lemma_end_from_range(keys, i, j + 1);
    }
}

/// Two keys under the same directory, in order, differ in their last step
/// and that step decides the order.
proof fn lemma_sibling_order(a: Seq<Step>, b: Seq<Step>)
    requires
        a.len() == b.len(),
        a.len() > 0,
        a.drop_last() == b.drop_last(),
        key_lt(a, b),
    ensures
        step_lt(a.last(), b.last()),
    decreases a.len(),
{
    if a.len() > 1 {
        assert(a[0] == a.drop_last()[0]);
        assert(b[0] == b.drop_last()[0]);
        assert(a.drop_first().drop_last() =~= b.drop_first().drop_last()) by {
            assert(a.drop_first().drop_last() =~= a.drop_last().drop_first());
            assert(b.drop_first().drop_last() =~= b.drop_last().drop_first());
        }
        assert(key_lt(a.drop_first(), b.drop_first()));
        lemma_sibling_order(a.drop_first(), b.drop_first());
        assert(a.drop_first().last() == a.last());
        assert(b.drop_first().last() == b.last());
    } else {
        if a[0] == b[0] {
            assert(key_lt(a.drop_first(), b.drop_first()));
            assert(false);
        }
    }
}

/// The shape of the tree: a directory's range, from just after it to its
/// end, holds exactly the entries whose keys it begins, that is, what lies
/// under it; and entries under the same directory come directories first,
/// directories by name, then files by name and then by index.
pub proof fn tree_shape_law(keys: Seq<Seq<Step>>, q: int)
    requires
        strictly_sorted(keys),
        0 <= q < keys.len(),
    ensures
        entry_at(keys, q) matches EntryView::Dir { end, .. } ==> forall|p: int|
            0 <= p < keys.len() ==> ((q < p < end) <==> (p != q && key_prefix(keys[q], #[trigger] keys[p]))),
        forall|p: int, r: int|
            0 <= p < r < keys.len() && keys[p].len() == keys[r].len() && keys[p].len() > 0
                && #[trigger] keys[p].drop_last() == #[trigger] keys[r].drop_last() ==> step_lt(keys[p].last(), keys[r].last()),
{
    lemma_end_from_range(keys, q, q + 1);
    let end = end_from(keys, q, q + 1);
    assert forall|p: int| 0 <= p < keys.len() implies ((q < p < end) <==> (p != q && key_prefix(
        keys[q],
        #[trigger] keys[p],
    ))) by {
        if p != q && key_prefix(keys[q], keys[p]) {
            lemma_key_lt_order(keys[q], keys[p], keys[q]);
            if p < q {
                assert(key_lt(keys[p], keys[q]));
                lemma_prefix_first(keys[q], keys[p]);
                assert(false);
            }
            if p >= end {
                assert(end < keys.len());
                if p > end {
                    assert(key_lt(keys[q], keys[end]));
                    assert(key_lt(keys[end], keys[p]));
                    lemma_prefix_between(keys[q], keys[end], keys[p]);
                }
                assert(false);
            }
        }
    }
    assert forall|p: int, r: int|
        0 <= p < r < keys.len() && keys[p].len() == keys[r].len() && keys[p].len() > 0
            && #[trigger] keys[p].drop_last() == #[trigger] keys[r].drop_last() implies step_lt(
        keys[p].last(),
        keys[r].last(),
    ) by {
        lemma_sibling_order(keys[p], keys[r]);
    }
}

// ---------------------------------------------------------------------------
// Directory ranges as paths.

/// The text holds no `/`.
pub open spec fn no_slash(name: Seq<char>) -> bool {
    forall|i: int| 0 <= i < name.len() ==> name[i] != '/'
}

/// Splitting at `/` a concatenation: the last piece of the first text
/// joins the first piece of the second.
proof fn lemma_split_concat(x: Seq<char>, y: Seq<char>)
    ensures
        split(x + y, '/') == split(x, '/').drop_last() + seq![split(x, '/').last() + split(y, '/')[0]] + split(
            y,
            '/',
        ).drop_first(),
    decreases y.len(),
{
    lemma_split_nonempty(x, '/');
    lemma_split_nonempty(y, '/');
    let a = split(x, '/');
    if y.len() == 0 {
        assert(x + y =~= x);
        assert(a.drop_last() + seq![a.last() + Seq::<char>::empty()] =~= a);
    } else {
        let y2 = y.drop_last();
        let c = y.last();
        lemma_split_concat(x, y2);
        lemma_split_nonempty(y2, '/');
        assert((x + y).drop_last() =~= x + y2);
        assert((x + y).last() == c);
        let b2 = split(y2, '/');
        let prev = a.drop_last() + seq![a.last() + b2[0]] + b2.drop_first();
        if c == '/' {
            assert(split(y, '/') == b2.push(Seq::<char>::empty()));
            assert(split(y, '/')[0] == b2[0]);
            assert(split(y, '/').drop_first() =~= b2.drop_first().push(Seq::<char>::empty()));
            assert(prev.push(Seq::<char>::empty()) =~= a.drop_last() + seq![a.last() + b2[0]] + b2.drop_first().push(
                Seq::<char>::empty(),
            ));
        } else {
            let b = b2.update(b2.len() - 1, b2.last().push(c));
            assert(split(y, '/') == b);
            if b2.len() == 1 {
                assert(b[0] == b2[0].push(c));
                assert(b.drop_first() =~= Seq::<Seq<char>>::empty());
                assert(b2.drop_first() =~= Seq::<Seq<char>>::empty());
                assert(prev.update(prev.len() - 1, prev.last().push(c)) =~= a.drop_last() + seq![a.last() + b[0]]
                    + b.drop_first());
            } else {
                assert(b[0] == b2[0]);
                assert(b.drop_first() =~= b2.drop_first().update(b2.len() - 2, b2.last().push(c)));
                assert(prev.update(prev.len() - 1, prev.last().push(c)) =~= a.drop_last() + seq![a.last() + b[0]]
                    + b.drop_first());
            }
        }
    }
}

/// A text without `/` splits into itself.
proof fn lemma_split_single(name: Seq<char>)
    requires
        no_slash(name),
    ensures
        split(name, '/') == seq![name],
    decreases name.len(),
{
    if name.len() > 0 {
        assert(no_slash(name.drop_last()));
        lemma_split_single(name.drop_last());
        assert(name[name.len() - 1] != '/');
        assert(name.drop_last().push(name.last()) =~= name);
        assert(seq![name.drop_last()].update(0, name.drop_last().push(name.last())) =~= seq![name]);
    } else {
        assert(name =~= Seq::<char>::empty());
    }
}

/// The pieces of a split hold no `/`.
proof fn lemma_split_pieces(s: Seq<char>)
    ensures
        forall|i: int| 0 <= i < split(s, '/').len() ==> no_slash(#[trigger] split(s, '/')[i]),
    decreases s.len(),
{
    if s.len() > 0 {
        lemma_split_pieces(s.drop_last());
        lemma_split_nonempty(s.drop_last(), '/');
    }
}

/// The path of directories one after another.
proof fn lemma_dir_path_concat(a: Seq<Step>, b: Seq<Step>)
    ensures
        dir_path(a + b) == dir_path(a) + dir_path(b),
    decreases b.len(),
{
    if b.len() == 0 {
        assert(a + b =~= a);
    } else {
        lemma_dir_path_concat(a, b.drop_last());
        assert((a + b).drop_last() =~= a + b.drop_last());
        assert((a + b).last() == b.last());
    }
}

/// The steps of the first names are the first steps.
proof fn lemma_dir_steps_take(names: Seq<Seq<char>>, m: int)
    requires
        0 <= m <= names.len(),
    ensures
        dir_steps(names).take(m) == dir_steps(names.take(m)),
        dir_steps(names.take(m)) + dir_steps(names.skip(m)) == dir_steps(names),
{
    assert(dir_steps(names).take(m) =~= dir_steps(names.take(m)));
    assert(dir_steps(names.take(m)) + dir_steps(names.skip(m)) =~= dir_steps(names));
}

/// The path of some directories splits into their names and an empty
/// last piece.
proof fn lemma_split_dir_path(names: Seq<Seq<char>>)
    requires
        forall|i: int| 0 <= i < names.len() ==> no_slash(#[trigger] names[i]),
    ensures
        split(dir_path(dir_steps(names)), '/') == names.push(Seq::<char>::empty()),
    decreases names.len(),
{
    if names.len() > 0 {
        let front = names.drop_last();
        let n = names.last();
        assert(dir_steps(names).drop_last() =~= dir_steps(front));
        lemma_split_dir_path(front);
        let d = dir_path(dir_steps(front));
        assert(dir_path(dir_steps(names)) == d + n.push('/'));
        assert(no_slash(n));
        lemma_split_single(n);
        assert(n.push('/').drop_last() =~= n);
        assert(split(n.push('/'), '/') == seq![n].push(Seq::<char>::empty()));
        lemma_split_concat(d, n.push('/'));
        assert(Seq::<char>::empty() + n =~= n);
        assert(split(d + n.push('/'), '/') =~= names.push(Seq::<char>::empty()));
    } else {
        assert(dir_path(dir_steps(names)) =~= Seq::<char>::empty());
    }
}

/// A path is its directories, each followed by `/`, then its last part.
proof fn lemma_split_join(s: Seq<char>)
    ensures
        s == dir_path(dir_steps(split(s, '/').drop_last())) + split(s, '/').last(),
    decreases s.len(),
{
    lemma_split_nonempty(s, '/');
    if s.len() == 0 {
        assert(split(s, '/').drop_last() =~= Seq::<Seq<char>>::empty());
        assert(dir_path(dir_steps(Seq::<Seq<char>>::empty())) =~= Seq::<char>::empty());
        assert(s =~= Seq::<char>::empty() + Seq::<char>::empty());
    } else {
        let p = split(s.drop_last(), '/');
        lemma_split_nonempty(s.drop_last(), '/');
        lemma_split_join(s.drop_last());
        if s.last() == '/' {
            assert(split(s, '/').drop_last() == p);
            assert(dir_steps(p).drop_last() =~= dir_steps(p.drop_last()));
            assert(s =~= s.drop_last().push('/'));
            assert(s =~= dir_path(dir_steps(p)) + Seq::<char>::empty());
        } else {
            assert(split(s, '/').drop_last() =~= p.drop_last());
            assert(s =~= s.drop_last().push(s.last()));
        }
    }
}

/// A path begins with the path of some directories exactly when its first
/// parts are their names, with a part left after them.
proof fn lemma_starts_with_dirs(s: Seq<char>, names: Seq<Seq<char>>)
    requires
        forall|i: int| 0 <= i < names.len() ==> no_slash(#[trigger] names[i]),
    ensures
        starts_with(s, dir_path(dir_steps(names))) <==> (names.len() < split(s, '/').len() && split(s, '/').take(
            names.len() as int,
        ) == names),
{
    let d = dir_path(dir_steps(names));
    let parts = split(s, '/');
    let m = names.len() as int;
    lemma_split_nonempty(s, '/');
    if starts_with(s, d) {
        let y = s.skip(d.len() as int);
        assert(s =~= d + y);
        lemma_split_concat(d, y);
        lemma_split_dir_path(names);
        lemma_split_nonempty(y, '/');
        let sd = names.push(Seq::<char>::empty());
        assert(sd.drop_last() =~= names);
        assert(parts.take(m) =~= names);
    }
    if m < parts.len() && parts.take(m) == names {
        lemma_split_join(s);
        let front = parts.drop_last();
        assert(front.take(m) =~= names);
        lemma_dir_steps_take(front, m);
        lemma_dir_path_concat(dir_steps(front.take(m)), dir_steps(front.skip(m)));
        let rest = dir_path(dir_steps(front.skip(m))) + parts.last();
        assert(s =~= d + rest);
        assert(s.take(d.len() as int) =~= d);
    }
}

/// The path of some directories is empty only for none.
proof fn lemma_dir_path_len(key: Seq<Step>)
    ensures
        key.len() > 0 ==> dir_path(key).len() > 0,
{
    if key.len() > 0 {
        assert(dir_path(key) == dir_path(key.drop_last()) + key.last().name.push('/'));
    }
}

/// What lies under the directory whose path is `dir`: a file whose path
/// begins with it, or another directory whose path does.
pub open spec fn lies_under(entry: EntryView, dir: Seq<char>, paths: Seq<Seq<char>>) -> bool {
    match entry {
        EntryView::File { index, .. } => starts_with(paths[index], dir),
        EntryView::Dir { path, .. } => path != dir && starts_with(path, dir),
    }
}

/// The key of a directory begins another key exactly when the entry of
/// that key lies under the directory's path.
proof fn lemma_prefix_under(keys: Seq<Seq<Step>>, paths: Seq<Seq<char>>, q: int, p: int)
    requires
        only_listed(keys, paths, paths.len() as int),
        0 <= q < keys.len(),
        0 <= p < keys.len(),
        !keys[q].last().file,
    ensures
        (keys[p] != keys[q] && key_prefix(keys[q], keys[p])) <==> lies_under(
            entry_at(keys, p),
            dir_path(keys[q]),
            paths,
        ),
{
    let d = keys[q];
    assert(listed(paths, paths.len() as int, d));
    lemma_listed_shape(paths, paths.len() as int, d);
    assert(!(exists|k: int| 0 <= k < paths.len() && d == #[trigger] file_key(paths[k], k))) by {
        if exists|k: int| 0 <= k < paths.len() && d == #[trigger] file_key(paths[k], k) {
            let k = choose|k: int| 0 <= k < paths.len() && d == #[trigger] file_key(paths[k], k);
            assert(d.last().file);
        }
    }
    let (k, m) = choose|k: int, m: int|
        0 <= k < paths.len() && 1 <= m < split(paths[k], '/').len() && d == #[trigger] dir_key(paths[k], m);
    let ns = split(paths[k], '/').take(m);
    lemma_split_pieces(paths[k]);
    assert forall|i: int| 0 <= i < ns.len() implies no_slash(#[trigger] ns[i]) by {
        assert(ns[i] == split(paths[k], '/')[i]);
    }
    assert(d == dir_steps(ns));
    let e = keys[p];
    assert(listed(paths, paths.len() as int, e));
    if exists|j: int| 0 <= j < paths.len() && e == #[trigger] file_key(paths[j], j) {
        let j = choose|j: int| 0 <= j < paths.len() && e == #[trigger] file_key(paths[j], j);
        let parts = split(paths[j], '/');
        lemma_split_nonempty(paths[j], '/');
        lemma_starts_with_dirs(paths[j], ns);
        assert(e.last().file);
        assert(entry_at(keys, p) == (EntryView::File { index: j, name: parts.last(), depth: e.len() - 1 }));
        assert(e.len() == parts.len());
        if key_prefix(d, e) {
            if m == e.len() {
                assert(e.take(m) =~= e);
                assert(d.last() == e.last());
            }
            assert(m < parts.len());
            assert forall|i: int| 0 <= i < m implies parts.take(m)[i] == ns[i] by {
                assert(e[i] == d[i]);
                assert(e[i] == e.take(m)[i]);
            }
            assert(parts.take(m) =~= ns);
        }
        if starts_with(paths[j], dir_path(d)) {
            assert(e.take(m) =~= d);
            assert(d != e) by {
                assert(d.len() < e.len());
            }
        }
    } else {
        let (j, m2) = choose|j: int, m2: int|
            0 <= j < paths.len() && 1 <= m2 < split(paths[j], '/').len() && e == #[trigger] dir_key(paths[j], m2);
        let parts = split(paths[j], '/');
        let es = parts.take(m2);
        lemma_split_pieces(paths[j]);
        assert forall|i: int| 0 <= i < es.len() implies no_slash(#[trigger] es[i]) by {
            assert(es[i] == parts[i]);
        }
        assert(e == dir_steps(es));
        assert(!e.last().file);
        assert(entry_at(keys, p) matches EntryView::Dir { path, .. } && path == dir_path(e));
        lemma_split_dir_path(es);
        lemma_starts_with_dirs(dir_path(e), ns);
        let se = es.push(Seq::<char>::empty());
        if e != d && key_prefix(d, e) {
            if m == m2 {
                assert(e.take(m) =~= e);
            }
            assert(m < m2);
            assert forall|i: int| 0 <= i < m implies se.take(m)[i] == ns[i] by {
                assert(e[i] == d[i]);
                assert(e[i] == e.take(m)[i]);
            }
            assert(se.take(m) =~= ns);
            lemma_dir_steps_take(es, m);
            lemma_dir_path_concat(dir_steps(es.take(m)), dir_steps(es.skip(m)));
            assert(es.take(m) =~= ns);
            lemma_dir_path_len(dir_steps(es.skip(m)));
            assert(dir_path(e).len() > dir_path(d).len());
        }
        if dir_path(e) != dir_path(d) && starts_with(dir_path(e), dir_path(d)) {
            assert(m < se.len() && se.take(m) == ns);
            if m == m2 {
                assert(se.take(m) =~= es);
                assert(false);
            }
            assert(es.take(m) =~= ns);
            lemma_dir_steps_take(es, m);
            assert(e.take(m) == d);
        }
    }
}

/// A directory's range, from just after it to its end, holds exactly the
/// entries that lie under its path: the files whose paths begin with it
/// and the other directories whose paths do.
pub proof fn directory_range_law(tree: Tree, paths: Seq<Seq<char>>, q: int)
    requires
        tree.lists(paths),
        0 <= q < tree.all@.len(),
    ensures
        tree.all@[q]@ matches EntryView::Dir { path, end, .. } ==> forall|p: int|
            0 <= p < tree.all@.len() ==> ((q < p < end) <==> lies_under(#[trigger] tree.all@[p]@, path, paths)),
{
    let keys = tree.keys@;
    tree_shape_law(keys, q);
    assert(tree.all@[q]@ == entry_at(keys, q));
    if !keys[q].last().file {
        assert forall|p: int| 0 <= p < tree.all@.len() implies ((q < p < end_from(keys, q, q + 1)) <==> lies_under(
            #[trigger] tree.all@[p]@,
            dir_path(keys[q]),
            paths,
        )) by {
            assert(tree.all@[p]@ == entry_at(keys, p));
            lemma_prefix_under(keys, paths, q, p);
            if p != q {
                lemma_key_lt_order(keys[p], keys[q], keys[p]);
                if p < q {
                    assert(key_lt(keys[p], keys[q]));
                } else {
                    assert(key_lt(keys[q], keys[p]));
                }
            }
        }
    }
}

/// Entries under the same directory, or both at the top, come in the
/// order a file browser lists them: directories before files,
/// directories by ascending name, files by ascending name and then by the
/// index of their path.
pub proof fn sibling_order_law(tree: Tree, paths: Seq<Seq<char>>, p: int, r: int)
    requires
        tree.lists(paths),
        0 <= p < r < tree.all@.len(),
        tree.keys@[p].drop_last() == tree.keys@[r].drop_last(),
    ensures
        match (tree.all@[p]@, tree.all@[r]@) {
            (EntryView::Dir { name: a, .. }, EntryView::Dir { name: b, .. }) => text_lt(a, b),
            (EntryView::Dir { .. }, EntryView::File { .. }) => true,
            (EntryView::File { .. }, EntryView::Dir { .. }) => false,
            (EntryView::File { name: a, index: i, .. }, EntryView::File { name: b, index: j, .. }) => text_lt(a, b) || (
            a == b && i < j),
        },
{
    let keys = tree.keys@;
    assert(listed(paths, paths.len() as int, keys[p]));
    assert(listed(paths, paths.len() as int, keys[r]));
    lemma_listed_shape(paths, paths.len() as int, keys[p]);
    lemma_listed_shape(paths, paths.len() as int, keys[r]);
    assert(keys[p].len() == keys[r].len()) by {
        assert(keys[p].drop_last().len() == keys[r].drop_last().len());
    }
    tree_shape_law(keys, 0);
    assert(step_lt(keys[p].last(), keys[r].last()));
    assert(tree.all@[p]@ == entry_at(keys, p));
    assert(tree.all@[r]@ == entry_at(keys, r));
}

} // verus!
