//! The totals over all shows, and the removal commands.
use vstd::prelude::*;
use vstd::multiset::Multiset;
use vstd::string::*;

use crate::models::FileToDelete;

verus! {

// ------------------------------------------------------------ ordering

/// Lexicographic order of paths by character (the order of their UTF-8 bytes).
pub open spec fn path_le(a: Seq<char>, b: Seq<char>) -> bool
    decreases a.len(),
{
    if a.len() == 0 {
        true
    } else if b.len() == 0 {
        false
    } else if a[0] != b[0] {
        (a[0] as int) < (b[0] as int)
    } else {
        path_le(a.drop_first(), b.drop_first())
    }
}

/// Any two paths are ordered one way or the other.
pub proof fn lemma_path_le_total(a: Seq<char>, b: Seq<char>)
    ensures
        path_le(a, b) || path_le(b, a),
    decreases a.len(),
{
    if a.len() > 0 && b.len() > 0 && a[0] == b[0] {
        lemma_path_le_total(a.drop_first(), b.drop_first());
    }
}

/// The order of paths is transitive.
pub proof fn lemma_path_le_transitive(a: Seq<char>, b: Seq<char>, c: Seq<char>)
    requires
        path_le(a, b),
        path_le(b, c),
    ensures
        path_le(a, c),
    decreases a.len(),
{
    if a.len() > 0 && b.len() > 0 && c.len() > 0 && a[0] == b[0] && b[0] == c[0] {
        lemma_path_le_transitive(a.drop_first(), b.drop_first(), c.drop_first());
    }
}

/// The order of paths is lexicographic: where two paths agree on their
/// first `i` characters and differ at position `i`, the one with the smaller
/// character comes first (and only that one); a path comes before every
/// path it is a prefix of, and a longer path never comes before its proper
/// prefix.
pub proof fn lemma_path_le_lexicographic(a: Seq<char>, b: Seq<char>, i: int)
    requires
        0 <= i <= a.len(),
        i <= b.len(),
        forall|k: int| 0 <= k < i ==> a[k] == b[k],
    ensures
        i < a.len() && i < b.len() && a[i] != b[i] ==> (path_le(a, b) <==> (a[i] as int) < (b[i] as int)),
        i < a.len() && i < b.len() && a[i] != b[i] ==> (path_le(b, a) <==> (b[i] as int) < (a[i] as int)),
        i == a.len() ==> path_le(a, b),
        i == a.len() && i < b.len() ==> !path_le(b, a),
    decreases i,
{
    if i > 0 {
        assert(a[0] == b[0]);
        let a1 = a.drop_first();
        let b1 = b.drop_first();
        assert forall|k: int| 0 <= k < i - 1 implies a1[k] == b1[k] by {
            assert(a[k + 1] == b[k + 1]);
        }
        lemma_path_le_lexicographic(a1, b1, i - 1);
    }
}

/// Two paths ordered both ways are the same path.
pub proof fn lemma_path_le_antisymmetric(a: Seq<char>, b: Seq<char>)
    requires
        path_le(a, b),
        path_le(b, a),
    ensures
        a == b,
    decreases a.len(),
{
    if a.len() > 0 && b.len() > 0 {
        lemma_path_le_antisymmetric(a.drop_first(), b.drop_first());
        assert(a =~= seq![a[0]] + a.drop_first());
        assert(b =~= seq![b[0]] + b.drop_first());
    } else {
        assert(a =~= b);
    }
}

/// Compares two paths in the order of `path_le`.
pub fn path_le_exec(a: &str, b: &str) -> (res: bool)
    ensures
        res == path_le(a@, b@),
{
    let na = a.unicode_len();
    let nb = b.unicode_len();
    let mut i: usize = 0;
    assert(a@.skip(0) =~= a@);
    assert(b@.skip(0) =~= b@);
    while i < na && i < nb
        invariant
            i <= na,
            i <= nb,
            na == a@.len(),
            nb == b@.len(),
            path_le(a@, b@) == path_le(a@.skip(i as int), b@.skip(i as int)),
        decreases na - i,
    {
        let ca = a.get_char(i);
        let cb = b.get_char(i);
        assert(a@.skip(i as int)[0] == ca);
        assert(b@.skip(i as int)[0] == cb);
        if ca != cb {
            return (ca as u32) < (cb as u32);
        }
        assert(a@.skip(i as int).drop_first() =~= a@.skip(i + 1));
        assert(b@.skip(i as int).drop_first() =~= b@.skip(i + 1));
        i = i + 1;
    }
    i == na
}

/// Sorted by path.
pub open spec fn sorted_by_path(files: Seq<FileToDelete>) -> bool {
    forall|k: int, l: int| 0 <= k < l < files.len() ==> path_le(#[trigger] files[k].path@, #[trigger] files[l].path@)
}

/// Sorts files by path (a stable insertion sort).
pub fn sort_files_by_path(files: &Vec<FileToDelete>) -> (sorted: Vec<FileToDelete>)
    ensures
        sorted_by_path(sorted@),
        sorted@.to_multiset() == files@.to_multiset(),
{
    broadcast use vstd::multiset::group_multiset_axioms, vstd::seq_lib::group_to_multiset_ensures;

    let n = files.len();
    let mut sorted: Vec<FileToDelete> = Vec::new();
    let mut i: usize = 0;
    while i < n
        invariant
            i <= n,
            n == files@.len(),
            sorted_by_path(sorted@),
            sorted@.to_multiset() == files@.take(i as int).to_multiset(),
        decreases n - i,
    {
        let f = files[i].copy();
        let m = sorted.len();
        let mut p: usize = 0;
        while p < m && path_le_exec(sorted[p].path.as_str(), f.path.as_str())
            invariant
                p <= m,
                m == sorted@.len(),
                sorted_by_path(sorted@),
                forall|k: int| 0 <= k < p ==> path_le(#[trigger] sorted@[k].path@, f.path@),
            decreases m - p,
        {
            p = p + 1;
        }
        let ghost old_sorted = sorted@;
        sorted.insert(p, f);
        proof {
            if p < m {
                assert(!path_le(old_sorted[p as int].path@, f.path@));
                lemma_path_le_total(old_sorted[p as int].path@, f.path@);
            }
            assert forall|k: int, l: int| 0 <= k < l < sorted@.len() implies path_le(
                #[trigger] sorted@[k].path@,
                #[trigger] sorted@[l].path@,
            ) by {
                if l < p {
                    assert(sorted@[k] == old_sorted[k] && sorted@[l] == old_sorted[l]);
                } else if l == p {
                    assert(sorted@[k] == old_sorted[k]);
                } else if k == p {
                    assert(sorted@[l] == old_sorted[l - 1]);
                    if l - 1 > p {
                        assert(path_le(old_sorted[p as int].path@, old_sorted[l - 1].path@));
                        lemma_path_le_transitive(f.path@, old_sorted[p as int].path@, old_sorted[l - 1].path@);
                    }
                } else if k < p {
                    assert(sorted@[k] == old_sorted[k] && sorted@[l] == old_sorted[l - 1]);
                } else {
                    assert(sorted@[k] == old_sorted[k - 1] && sorted@[l] == old_sorted[l - 1]);
                }
            }
            assert(old_sorted =~= old_sorted.take(p as int) + old_sorted.skip(p as int));
            assert(sorted@ =~= old_sorted.take(p as int) + seq![files@[i as int]] + old_sorted.skip(p as int));
            vstd::seq_lib::lemma_multiset_commutative(old_sorted.take(p as int), old_sorted.skip(p as int));
            vstd::seq_lib::lemma_multiset_commutative(old_sorted.take(p as int) + seq![files@[i as int]], old_sorted.skip(p as int));
            vstd::seq_lib::lemma_multiset_commutative(old_sorted.take(p as int), seq![files@[i as int]]);
            assert(files@.take(i + 1) =~= files@.take(i as int).push(files@[i as int]));
            let x = files@[i as int];
            let tt = old_sorted.take(p as int);
            let ss = old_sorted.skip(p as int);
            assert(seq![x] =~= Seq::<FileToDelete>::empty().push(x));
            vstd::seq_lib::to_multiset_build(Seq::<FileToDelete>::empty(), x);
            vstd::seq_lib::to_multiset_build(files@.take(i as int), x);
            assert(Seq::<FileToDelete>::empty().to_multiset() =~= Multiset::<FileToDelete>::empty()) by {
                Seq::<FileToDelete>::empty().to_multiset_ensures();
            }
            assert(seq![x].to_multiset() =~= Multiset::<FileToDelete>::empty().insert(x));
            assert(sorted@.to_multiset() =~= tt.to_multiset().add(seq![x].to_multiset()).add(ss.to_multiset()));
            assert(old_sorted.to_multiset() =~= tt.to_multiset().add(ss.to_multiset()));
            assert(files@.take(i + 1).to_multiset() =~= files@.take(i as int).to_multiset().insert(x));
            assert(sorted@.to_multiset() =~= files@.take(i + 1).to_multiset());
        }
        i = i + 1;
    }
    assert(files@.take(n as int) =~= files@);
    sorted
}

// ------------------------------------------------------------ statistics

/// What identifies a file to remove: its path and its size.
pub open spec fn file_key(f: FileToDelete) -> (Seq<char>, i64) {
    (f.path@, f.size)
}

/// Some entry of `files` has the path and size of `f`.
pub open spec fn key_listed(files: Seq<FileToDelete>, f: FileToDelete) -> bool {
    exists|k: int| 0 <= k < files.len() && file_key(#[trigger] files[k]) == file_key(f)
}

/// No two entries share path and size.
pub open spec fn distinct_keys(files: Seq<FileToDelete>) -> bool {
    forall|k: int, l: int| 0 <= k < l < files.len() ==> file_key(#[trigger] files[k]) != file_key(#[trigger] files[l])
}

/// `entries` followed by those of `files` whose path and size are new, in order.
pub open spec fn add_new_files(entries: Seq<FileToDelete>, files: Seq<FileToDelete>) -> Seq<FileToDelete>
    decreases files.len(),
{
    if files.len() == 0 {
        entries
    } else {
        let prev = add_new_files(entries, files.drop_last());
        if key_listed(prev, files.last()) {
            prev
        } else {
            prev.push(files.last())
        }
    }
}

/// The sum of the sizes of `files`.
pub open spec fn size_sum(files: Seq<FileToDelete>) -> int
    decreases files.len(),
{
    if files.len() == 0 {
        0
    } else {
        size_sum(files.drop_last()) + files.last().size
    }
}

proof fn lemma_key_listed_push(s: Seq<FileToDelete>, x: FileToDelete, f: FileToDelete)
    ensures
        key_listed(s.push(x), f) <==> (key_listed(s, f) || file_key(x) == file_key(f)),
{
    let next = s.push(x);
    if key_listed(next, f) {
        let k = choose|k: int| 0 <= k < next.len() && file_key(#[trigger] next[k]) == file_key(f);
        if k < s.len() {
            assert(s[k] == next[k]);
        }
    }
    if key_listed(s, f) {
        let k = choose|k: int| 0 <= k < s.len() && file_key(#[trigger] s[k]) == file_key(f);
        assert(next[k] == s[k]);
    }
    if file_key(x) == file_key(f) {
        assert(next[s.len() as int] == x);
    }
}

proof fn lemma_distinct_push(s: Seq<FileToDelete>, x: FileToDelete)
    requires
        distinct_keys(s),
        !key_listed(s, x),
    ensures
        distinct_keys(s.push(x)),
{
    let next = s.push(x);
    assert forall|k: int, l: int| 0 <= k < l < next.len() implies file_key(#[trigger] next[k]) != file_key(#[trigger] next[l]) by {
        assert(next[k] == s[k]);
        if l == s.len() {
            if file_key(s[k]) == file_key(x) {
                assert(key_listed(s, x));
            }
        } else {
            assert(next[l] == s[l]);
        }
    }
}

/// Adding files keeps one entry per path and size, and the entries after
/// are those before together with the files added.
pub proof fn lemma_add_new_files(entries: Seq<FileToDelete>, files: Seq<FileToDelete>)
    requires
        distinct_keys(entries),
    ensures
        distinct_keys(add_new_files(entries, files)),
        forall|f: FileToDelete| #[trigger] key_listed(add_new_files(entries, files), f) <==> (key_listed(entries, f) || key_listed(files, f)),
    decreases files.len(),
{
    if files.len() > 0 {
        let rest = files.drop_last();
        lemma_add_new_files(entries, rest);
        let prev = add_new_files(entries, rest);
        let x = files.last();
        assert(files =~= rest.push(x));
        assert forall|f: FileToDelete| #[trigger] key_listed(add_new_files(entries, files), f) <==> (key_listed(entries, f) || key_listed(files, f)) by {
            lemma_key_listed_push(rest, x, f);
            lemma_key_listed_push(prev, x, f);
            if key_listed(prev, x) && file_key(x) == file_key(f) {
                let k = choose|k: int| 0 <= k < prev.len() && file_key(#[trigger] prev[k]) == file_key(x);
                assert(file_key(prev[k]) == file_key(f));
            }
        }
        if !key_listed(prev, x) {
            lemma_distinct_push(prev, x);
        }
    }
}

/// A file is recorded once per path and size, as a set of files is: after
/// adding, every file added is among the entries with its path and its
/// size, every entry was there before or was added, and no two entries
/// have both the same path and the same size (two files at one path with
/// different sizes are two entries).
pub proof fn lemma_added_files_kept_once(entries: Seq<FileToDelete>, files: Seq<FileToDelete>)
    requires
        forall|k: int, l: int|
            0 <= k < l < entries.len() ==> (#[trigger] entries[k]).path@ != (#[trigger] entries[l]).path@
                || entries[k].size != entries[l].size,
    ensures
        forall|i: int|
            0 <= i < files.len() ==> exists|k: int|
                0 <= k < add_new_files(entries, files).len() && (#[trigger] add_new_files(entries, files)[k]).path@
                    == (#[trigger] files[i]).path@ && add_new_files(entries, files)[k].size == files[i].size,
        forall|k: int|
            #![trigger add_new_files(entries, files)[k]]
            0 <= k < add_new_files(entries, files).len() ==> (exists|i: int|
                0 <= i < entries.len() && (#[trigger] entries[i]).path@ == add_new_files(entries, files)[k].path@
                    && entries[i].size == add_new_files(entries, files)[k].size) || (exists|i: int|
                0 <= i < files.len() && (#[trigger] files[i]).path@ == add_new_files(entries, files)[k].path@
                    && files[i].size == add_new_files(entries, files)[k].size),
        forall|k: int, l: int|
            0 <= k < l < add_new_files(entries, files).len() ==> (#[trigger] add_new_files(entries, files)[k]).path@
                != (#[trigger] add_new_files(entries, files)[l]).path@ || add_new_files(entries, files)[k].size
                != add_new_files(entries, files)[l].size,
{
    let out = add_new_files(entries, files);
    assert(distinct_keys(entries)) by {
        assert forall|k: int, l: int| 0 <= k < l < entries.len() implies file_key(#[trigger] entries[k]) != file_key(#[trigger] entries[l]) by {
            if file_key(entries[k]) == file_key(entries[l]) {
                assert(entries[k].path@ == entries[l].path@);
            }
        }
    }
    lemma_add_new_files(entries, files);
    assert forall|i: int| 0 <= i < files.len() implies exists|k: int|
        0 <= k < out.len() && (#[trigger] out[k]).path@ == (#[trigger] files[i]).path@ && out[k].size == files[i].size by {
        assert(key_listed(files, files[i]));
        assert(key_listed(out, files[i]));
        let k = choose|k: int| 0 <= k < out.len() && file_key(#[trigger] out[k]) == file_key(files[i]);
        assert(out[k].path@ == files[i].path@);
    }
    assert forall|k: int| #![trigger out[k]] 0 <= k < out.len() implies (exists|i: int|
        0 <= i < entries.len() && (#[trigger] entries[i]).path@ == out[k].path@ && entries[i].size == out[k].size) || (exists|i: int|
        0 <= i < files.len() && (#[trigger] files[i]).path@ == out[k].path@ && files[i].size == out[k].size) by {
        assert(file_key(out[k]) == file_key(out[k]));
        assert(key_listed(out, out[k]));
        if key_listed(entries, out[k]) {
            let i = choose|i: int| 0 <= i < entries.len() && file_key(#[trigger] entries[i]) == file_key(out[k]);
            assert(entries[i].path@ == out[k].path@);
        } else {
            let i = choose|i: int| 0 <= i < files.len() && file_key(#[trigger] files[i]) == file_key(out[k]);
            assert(files[i].path@ == out[k].path@);
        }
    }
    assert forall|k: int, l: int| 0 <= k < l < out.len() implies (#[trigger] out[k]).path@ != (#[trigger] out[l]).path@
        || out[k].size != out[l].size by {
        if out[k].path@ == out[l].path@ && out[k].size == out[l].size {
            assert(file_key(out[k]) == file_key(out[l]));
        }
    }
}

/// The space of two lists of files together is the sum of their spaces.
pub proof fn lemma_size_sum_append(a: Seq<FileToDelete>, b: Seq<FileToDelete>)
    ensures
        size_sum(a + b) == size_sum(a) + size_sum(b),
        size_sum(Seq::<FileToDelete>::empty()) == 0,
    decreases b.len(),
{
    if b.len() == 0 {
        assert(a + b =~= a);
    } else {
        lemma_size_sum_append(a, b.drop_last());
        assert((a + b).drop_last() =~= a + b.drop_last());
    }
}

proof fn lemma_size_sum_bounds(files: Seq<FileToDelete>)
    ensures
        -0x8000_0000_0000_0000 * files.len() <= size_sum(files) <= 0x7fff_ffff_ffff_ffff * files.len(),
    decreases files.len(),
{
    if files.len() > 0 {
        lemma_size_sum_bounds(files.drop_last());
    }
}

/// The totals over all shows processed so far. Each file to remove is
/// counted once, whatever number of shows named it.
pub struct Statistics {
    total_duplicate_episodes: usize,
    total_duplicate_files: usize,
    files_to_delete: Vec<FileToDelete>,
}

impl Statistics {
    #[verifier::type_invariant]
    spec fn inv(self) -> bool {
        distinct_keys(self.files_to_delete@)
    }

    /// Episodes with duplicates found so far.
    pub closed spec fn episodes(self) -> nat {
        self.total_duplicate_episodes as nat
    }

    /// Files marked for removal so far, counting a file once per show that named it.
    pub closed spec fn files_named(self) -> nat {
        self.total_duplicate_files as nat
    }

    /// The files marked for removal, one per path and size, in the order first named.
    pub closed spec fn entries(self) -> Seq<FileToDelete> {
        self.files_to_delete@
    }

    /// No totals yet.
    pub fn new() -> (s: Self)
        ensures
            s.episodes() == 0,
            s.files_named() == 0,
            s.entries() == Seq::<FileToDelete>::empty(),
    {
        Statistics { total_duplicate_episodes: 0, total_duplicate_files: 0, files_to_delete: Vec::new() }
    }

    /// Adds the result of one show: how many of its episodes have duplicates,
    /// and the files to remove that it named.
    pub fn record_show(&mut self, episode_count: usize, files: Vec<FileToDelete>)
        requires
            old(self).episodes() + episode_count <= usize::MAX,
            old(self).files_named() + files@.len() <= usize::MAX,
        ensures
            final(self).episodes() == old(self).episodes() + episode_count,
            final(self).files_named() == old(self).files_named() + files@.len(),
            final(self).entries() == add_new_files(old(self).entries(), files@),
            distinct_keys(final(self).entries()),
            forall|f: FileToDelete| #[trigger] key_listed(final(self).entries(), f) <==> (key_listed(old(self).entries(), f) || key_listed(files@, f)),
    {
        proof {
            use_type_invariant(&*self);
            lemma_add_new_files(self.files_to_delete@, files@);
        }
        let ghost start = self.files_to_delete@;
        let mut entries: Vec<FileToDelete> = Vec::new();
        std::mem::swap(&mut entries, &mut self.files_to_delete);
        assert(entries@ == start);
        let n = files.len();
        let mut i: usize = 0;
        while i < n
            invariant
                i <= n,
                n == files@.len(),
                entries@ == add_new_files(start, files@.take(i as int)),
            decreases n - i,
        {
            assert(files@.take(i + 1).drop_last() =~= files@.take(i as int));
            assert(files@.take(i + 1).last() == files@[i as int]);
            let f = &files[i];
            let m = entries.len();
            let mut k: usize = 0;
            let mut found = false;
            while k < m
                invariant
                    k <= m,
                    m == entries@.len(),
                    found == (exists|q: int| 0 <= q < k && file_key(#[trigger] entries@[q]) == file_key(*f)),
                decreases m - k,
            {
                if entries[k].size == f.size && entries[k].path == f.path {
                    found = true;
                }
                k = k + 1;
            }
            if !found {
                entries.push(f.copy());
            }
            i = i + 1;
        }
        assert(files@.take(n as int) =~= files@);
        self.files_to_delete = entries;
        self.total_duplicate_episodes = self.total_duplicate_episodes + episode_count;
        self.total_duplicate_files = self.total_duplicate_files + n;
    }

    /// Episodes with duplicates found so far.
    pub fn total_duplicate_episodes(&self) -> (r: usize)
        ensures
            r == self.episodes(),
    {
        self.total_duplicate_episodes
    }

    /// Files marked for removal so far, counting a file once per show that named it.
    pub fn total_duplicate_files(&self) -> (r: usize)
        ensures
            r == self.files_named(),
    {
        self.total_duplicate_files
    }

    /// The files marked for removal, sorted by path.
    pub fn sorted_files(&self) -> (r: Vec<FileToDelete>)
        ensures
            sorted_by_path(r@),
            r@.to_multiset() == self.entries().to_multiset(),
    {
        sort_files_by_path(&self.files_to_delete)
    }

    /// The space the removals free, in bytes.
    pub fn total_space_bytes(&self) -> (r: i128)
        ensures
            r == size_sum(self.entries()),
    {
        let n = self.files_to_delete.len();
        let mut total: i128 = 0;
        let mut i: usize = 0;
        while i < n
            invariant
                i <= n,
                n == self.files_to_delete@.len(),
                total == size_sum(self.files_to_delete@.take(i as int)),
            decreases n - i,
        {
            assert(self.files_to_delete@.take(i + 1).drop_last() =~= self.files_to_delete@.take(i as int));
            proof {
                lemma_size_sum_bounds(self.files_to_delete@.take(i + 1));
            }
            total = total + self.files_to_delete[i].size as i128;
            i = i + 1;
        }
        assert(self.files_to_delete@.take(n as int) =~= self.files_to_delete@);
        total
    }
}

// ------------------------------------------------------------ commands

/// A character a POSIX shell takes literally: ASCII letters and digits and `-_=/,.+`.
pub open spec fn shell_safe_char(c: char) -> bool {
    ||| ('a' <= c && c <= 'z')
    ||| ('A' <= c && c <= 'Z')
    ||| ('0' <= c && c <= '9')
    ||| c == '-' || c == '_' || c == '=' || c == '/' || c == ',' || c == '.' || c == '+'
}

/// How a character stands inside single quotes: a `'` or a `!` closes the
/// quotes, follows a backslash and opens them again; any other character
/// stands for itself.
pub open spec fn single_quoted_char(c: char) -> Seq<char> {
    if c == '\'' || c == '!' {
        seq!['\'', '\\', c, '\'']
    } else {
        seq![c]
    }
}

/// The characters of `s` as they stand inside single quotes.
pub open spec fn single_quoted_body(s: Seq<char>) -> Seq<char>
    decreases s.len(),
{
    if s.len() == 0 {
        Seq::empty()
    } else {
        single_quoted_char(s[0]) + single_quoted_body(s.drop_first())
    }
}

/// `s` made safe for a POSIX shell: unchanged where it is not empty and
/// every character is safe, else wrapped in single quotes.
pub open spec fn shell_escaped(s: Seq<char>) -> Seq<char> {
    if s.len() > 0 && forall|i: int| 0 <= i < s.len() ==> #[trigger] shell_safe_char(s[i]) {
        s
    } else {
        seq!['\''] + single_quoted_body(s) + seq!['\'']
    }
}

/// Escapes `s` for a POSIX shell with `shell_escape::unix::escape`. Its
/// contract states what that function's source does: it returns the input
/// when it is not empty and holds only letters, digits and `-_=/,.+`;
/// otherwise it wraps the input in single quotes, writing each `'` and `!`
/// as `'\''` and `'\!'`.
#[verifier::external_body]
fn escape_for_shell(s: &str) -> (r: String)
    ensures
        r@ == shell_escaped(s@),
{
    shell_escape::unix::escape(std::borrow::Cow::Borrowed(s)).into_owned()
}

/// A character after which `cmd.exe` needs the word quoted: a double quote,
/// a tab, a newline or a space.
pub open spec fn cmd_special_char(c: char) -> bool {
    c == '"' || c == '\t' || c == '\n' || c == ' '
}

/// `n` backslashes.
pub open spec fn backslashes(n: nat) -> Seq<char> {
    Seq::new(n, |i: int| '\\')
}

/// The characters of `s` inside double quotes for `cmd.exe`, after
/// `pending` backslashes not yet written: a run of backslashes is doubled
/// (and one more added) before a `"`, doubled at the end, and kept as it is
/// before any other character.
pub open spec fn cmd_quoted_body(s: Seq<char>, pending: nat) -> Seq<char>
    decreases s.len(),
{
    if s.len() == 0 {
        backslashes(2 * pending)
    } else if s[0] == '\\' {
        cmd_quoted_body(s.drop_first(), pending + 1)
    } else if s[0] == '"' {
        backslashes(2 * pending + 1) + seq!['"'] + cmd_quoted_body(s.drop_first(), 0)
    } else {
        backslashes(pending) + seq![s[0]] + cmd_quoted_body(s.drop_first(), 0)
    }
}

/// `s` made safe for `cmd.exe`: unchanged where it is not empty and holds
/// no double quote, tab, newline or space, else wrapped in double quotes.
pub open spec fn cmd_escaped(s: Seq<char>) -> Seq<char> {
    if s.len() > 0 && forall|i: int| 0 <= i < s.len() ==> !#[trigger] cmd_special_char(s[i]) {
        s
    } else {
        seq!['"'] + cmd_quoted_body(s, 0) + seq!['"']
    }
}

/// Escapes `s` for the Windows `cmd.exe` shell with
/// `shell_escape::windows::escape`. Its contract states what that
/// function's source does: it returns the input when it is not empty and
/// holds no double quote, tab, newline or space; otherwise it wraps the input
/// in double quotes, doubling each run of backslashes that comes before a
/// `"` or at the end, and putting a backslash before each `"`.
#[verifier::external_body]
fn escape_for_cmd(s: &str) -> (r: String)
    ensures
        r@ == cmd_escaped(s@),
{
    shell_escape::windows::escape(std::borrow::Cow::Borrowed(s)).into_owned()
}

/// The shell the removal commands are written for.
pub enum Quoting {
    /// A POSIX shell: single quotes.
    Posix,
    /// The Windows `cmd.exe` shell: double quotes.
    WindowsCmd,
}

/// `s` escaped for the shell `q`.
pub open spec fn quoted_for(q: Quoting, s: Seq<char>) -> Seq<char> {
    match q {
        Quoting::Posix => shell_escaped(s),
        Quoting::WindowsCmd => cmd_escaped(s),
    }
}

/// `s` in front of what was read, where reading succeeded.
pub open spec fn prepend(s: Seq<char>, read: Option<Seq<char>>) -> Option<Seq<char>> {
    match read {
        Some(r) => Some(s + r),
        None => None,
    }
}

/// Reads one word as a POSIX shell does: outside quotes a safe character
/// stands for itself, a backslash makes the next character literal (a
/// backslash before a newline is a line continuation: both go) and a `'`
/// opens single quotes; inside them every character is literal up to the
/// next `'`. `None` where the word is malformed or holds a character that
/// the shell would treat specially.
pub open spec fn read_shell_word(w: Seq<char>, quoted: bool) -> Option<Seq<char>>
    decreases w.len(),
{
    if w.len() == 0 {
        if quoted {
            None
        } else {
            Some(Seq::empty())
        }
    } else if quoted {
        if w[0] == '\'' {
            read_shell_word(w.drop_first(), false)
        } else {
            prepend(seq![w[0]], read_shell_word(w.drop_first(), true))
        }
    } else if w[0] == '\'' {
        read_shell_word(w.drop_first(), true)
    } else if w[0] == '\\' {
        if w.len() >= 2 && w[1] == '\n' {
            read_shell_word(w.skip(2), false)
        } else if w.len() >= 2 {
            prepend(seq![w[1]], read_shell_word(w.skip(2), false))
        } else {
            None
        }
    } else if shell_safe_char(w[0]) {
        prepend(seq![w[0]], read_shell_word(w.drop_first(), false))
    } else {
        None
    }
}

proof fn lemma_read_safe_word(s: Seq<char>)
    requires
        forall|i: int| 0 <= i < s.len() ==> #[trigger] shell_safe_char(s[i]),
    ensures
        read_shell_word(s, false) == Some(s),
    decreases s.len(),
{
    if s.len() > 0 {
        assert forall|i: int| 0 <= i < s.drop_first().len() implies #[trigger] shell_safe_char(s.drop_first()[i]) by {
            assert(shell_safe_char(s[i + 1]));
        }
        lemma_read_safe_word(s.drop_first());
        assert(shell_safe_char(s[0]));
        assert(seq![s[0]] + s.drop_first() =~= s);
    }
}

proof fn lemma_read_quoted_body(s: Seq<char>, tail: Seq<char>)
    ensures
        read_shell_word(single_quoted_body(s) + tail, true) == prepend(s, read_shell_word(tail, true)),
    decreases s.len(),
{
    if s.len() == 0 {
        assert(single_quoted_body(s) + tail =~= tail);
        assert(prepend(s, read_shell_word(tail, true)) == read_shell_word(tail, true)) by {
            match read_shell_word(tail, true) {
                Some(r) => {
                    assert(s + r =~= r);
                },
                None => {},
            }
        }
    } else {
        let c = s[0];
        let rest = s.drop_first();
        lemma_read_quoted_body(rest, tail);
        let x = single_quoted_body(rest) + tail;
        let w = single_quoted_body(s) + tail;
        assert(w =~= single_quoted_char(c) + x);
        if c == '\'' || c == '!' {
            let w1 = w.drop_first();
            assert(w[0] == '\'');
            assert(w1 =~= seq!['\\', c, '\''] + x);
            assert(read_shell_word(w, true) == read_shell_word(w1, false));
            assert(w1[0] == '\\' && w1[1] == c);
            let w2 = w1.skip(2);
            assert(w2 =~= seq!['\''] + x);
            assert(read_shell_word(w1, false) == prepend(seq![c], read_shell_word(w2, false)));
            assert(w2[0] == '\'');
            assert(w2.drop_first() =~= x);
            assert(read_shell_word(w2, false) == read_shell_word(x, true));
        } else {
            assert(w[0] == c);
            assert(w.drop_first() =~= x);
            assert(read_shell_word(w, true) == prepend(seq![c], read_shell_word(x, true)));
        }
        match read_shell_word(tail, true) {
            Some(r) => {
                assert(seq![c] + (rest + r) =~= s + r);
            },
            None => {},
        }
    }
}

/// POSIX escaping is sound: a POSIX shell reads the escaped path back as
/// exactly the original path, as a single word.
pub proof fn lemma_shell_escape_round_trip(s: Seq<char>)
    ensures
        read_shell_word(shell_escaped(s), false) == Some(s),
{
    if s.len() > 0 && forall|i: int| 0 <= i < s.len() ==> #[trigger] shell_safe_char(s[i]) {
        lemma_read_safe_word(s);
    } else {
        let w = seq!['\''] + single_quoted_body(s) + seq!['\''];
        assert(w == shell_escaped(s));
        assert(w[0] == '\'');
        assert(w.drop_first() =~= single_quoted_body(s) + seq!['\'']);
        assert(read_shell_word(w, false) == read_shell_word(w.drop_first(), true));
        lemma_read_quoted_body(s, seq!['\'']);
        let q = seq!['\''];
        assert(q[0] == '\'');
        assert(q.drop_first() =~= Seq::<char>::empty());
        assert(read_shell_word(q, true) == read_shell_word(Seq::<char>::empty(), false));
        assert(read_shell_word(Seq::<char>::empty(), false) == Some(Seq::<char>::empty()));
        assert(s + Seq::<char>::empty() =~= s);
    }
}

/// A path holding a character that a POSIX shell would act on (a blank, a
/// quote, `$`, a backquote, a backslash, `!`, `*`, `?`, `;`, `&`, `|`, `<`,
/// `>`, a bracket, `#`, `~` or a newline) is written inside single quotes,
/// and so is the empty path; a path of letters and digits alone is written
/// as it is. For `cmd.exe`, a path holding a space, a tab, a newline or a
/// double quote, and the empty path, are written inside double quotes.
pub proof fn lemma_escaping_quotes_special_paths(s: Seq<char>)
    ensures
        (s.len() == 0 || exists|i: int|
            0 <= i < s.len() && {
                let c = #[trigger] s[i];
                c == ' ' || c == '\t' || c == '\n' || c == '\'' || c == '"' || c == '$' || c == '`'
                    || c == '\\' || c == '!' || c == '*' || c == '?' || c == ';' || c == '&' || c
                    == '|' || c == '<' || c == '>' || c == '(' || c == ')' || c == '[' || c == ']'
                    || c == '{' || c == '}' || c == '#' || c == '~'
            }) ==> shell_escaped(s)[0] == '\'' && shell_escaped(s).last() == '\'',
        (s.len() > 0 && forall|i: int|
            0 <= i < s.len() ==> ('a' <= #[trigger] s[i] <= 'z' || 'A' <= s[i] <= 'Z' || '0' <= s[i]
                <= '9')) ==> shell_escaped(s) == s,
        (s.len() == 0 || exists|i: int|
            0 <= i < s.len() && (#[trigger] s[i] == ' ' || s[i] == '\t' || s[i] == '\n' || s[i]
                == '"')) ==> cmd_escaped(s)[0] == '"' && cmd_escaped(s).last() == '"',
{
    if s.len() == 0 || exists|i: int|
        0 <= i < s.len() && {
            let c = #[trigger] s[i];
            c == ' ' || c == '\t' || c == '\n' || c == '\'' || c == '"' || c == '$' || c == '`'
                || c == '\\' || c == '!' || c == '*' || c == '?' || c == ';' || c == '&' || c
                == '|' || c == '<' || c == '>' || c == '(' || c == ')' || c == '[' || c == ']'
                || c == '{' || c == '}' || c == '#' || c == '~'
        } {
        if s.len() > 0 {
            let i = choose|i: int|
                0 <= i < s.len() && {
                    let c = #[trigger] s[i];
                    c == ' ' || c == '\t' || c == '\n' || c == '\'' || c == '"' || c == '$' || c
                        == '`' || c == '\\' || c == '!' || c == '*' || c == '?' || c == ';' || c
                        == '&' || c == '|' || c == '<' || c == '>' || c == '(' || c == ')' || c
                        == '[' || c == ']' || c == '{' || c == '}' || c == '#' || c == '~'
                };
            assert(!shell_safe_char(s[i]));
        }
        let e = seq!['\''] + single_quoted_body(s) + seq!['\''];
        assert(e[0] == '\'');
        assert(e.last() == '\'');
    }
    if s.len() == 0 || exists|i: int|
        0 <= i < s.len() && (#[trigger] s[i] == ' ' || s[i] == '\t' || s[i] == '\n' || s[i] == '"') {
        if s.len() > 0 {
            let i = choose|i: int|
                0 <= i < s.len() && (#[trigger] s[i] == ' ' || s[i] == '\t' || s[i] == '\n' || s[i]
                    == '"');
            assert(cmd_special_char(s[i]));
        }
        let e = seq!['"'] + cmd_quoted_body(s, 0) + seq!['"'];
        assert(e[0] == '"');
        assert(e.last() == '"');
    }
    if s.len() > 0 && forall|i: int|
        0 <= i < s.len() ==> ('a' <= #[trigger] s[i] <= 'z' || 'A' <= s[i] <= 'Z' || '0' <= s[i] <= '9') {
        assert forall|i: int| 0 <= i < s.len() implies #[trigger] shell_safe_char(s[i]) by {
            assert('a' <= s[i] <= 'z' || 'A' <= s[i] <= 'Z' || '0' <= s[i] <= '9');
        }
    }
}

/// Reads one word as Windows programs split a command line: a run of
/// backslashes stands for itself unless a `"` follows it; then each pair of
/// them stands for one backslash, and the `"` opens or closes quotes after
/// an even run and stands for itself after an odd one. Outside quotes a
/// space, tab or newline would end the word. `pending` counts backslashes
/// read but not yet placed. `None` where the word is not one word or its
/// quotes are left open.
pub open spec fn read_cmd_word(w: Seq<char>, quoted: bool, pending: nat) -> Option<Seq<char>>
    decreases w.len(),
{
    if w.len() == 0 {
        if quoted {
            None
        } else {
            Some(backslashes(pending))
        }
    } else if w[0] == '\\' {
        read_cmd_word(w.drop_first(), quoted, pending + 1)
    } else if w[0] == '"' {
        if pending % 2 == 0 {
            prepend(backslashes(pending / 2), read_cmd_word(w.drop_first(), !quoted, 0))
        } else {
            prepend(backslashes(pending / 2) + seq!['"'], read_cmd_word(w.drop_first(), quoted, 0))
        }
    } else if !quoted && cmd_special_char(w[0]) {
        None
    } else {
        prepend(backslashes(pending) + seq![w[0]], read_cmd_word(w.drop_first(), quoted, 0))
    }
}

proof fn lemma_read_cmd_backslashes(m: nat, w: Seq<char>, quoted: bool, k: nat)
    ensures
        read_cmd_word(backslashes(m) + w, quoted, k) == read_cmd_word(w, quoted, k + m),
    decreases m,
{
    if m > 0 {
        let x = backslashes(m) + w;
        assert(x[0] == '\\');
        assert(x.drop_first() =~= backslashes((m - 1) as nat) + w);
        lemma_read_cmd_backslashes((m - 1) as nat, w, quoted, k + 1);
    } else {
        assert(backslashes(0) + w =~= w);
    }
}

proof fn lemma_backslashes_push(p: nat)
    ensures
        backslashes(p + 1) =~= backslashes(p) + seq!['\\'],
        backslashes(2 * p) =~= backslashes(p) + backslashes(p),
{
}

proof fn lemma_read_cmd_plain(s: Seq<char>, p: nat)
    requires
        forall|i: int| 0 <= i < s.len() ==> !#[trigger] cmd_special_char(s[i]),
    ensures
        read_cmd_word(s, false, p) == Some(backslashes(p) + s),
    decreases s.len(),
{
    if s.len() == 0 {
        assert(backslashes(p) + s =~= backslashes(p));
    } else {
        let rest = s.drop_first();
        assert forall|i: int| 0 <= i < rest.len() implies !#[trigger] cmd_special_char(rest[i]) by {
            assert(!cmd_special_char(s[i + 1]));
        }
        assert(!cmd_special_char(s[0]));
        if s[0] == '\\' {
            lemma_read_cmd_plain(rest, p + 1);
            lemma_backslashes_push(p);
            assert(backslashes(p + 1) + rest =~= backslashes(p) + s);
        } else {
            lemma_read_cmd_plain(rest, 0);
            assert(backslashes(0) + rest =~= rest);
            assert(backslashes(p) + seq![s[0]] + rest =~= backslashes(p) + s);
        }
    }
}

proof fn lemma_read_cmd_quoted(s: Seq<char>, p: nat)
    ensures
        read_cmd_word(cmd_quoted_body(s, p) + seq!['"'], true, 0) == Some(backslashes(p) + s),
    decreases s.len(),
{
    let q = seq!['"'];
    let body = cmd_quoted_body(s, p);
    if s.len() == 0 {
        assert(body == backslashes(2 * p));
        lemma_read_cmd_backslashes(2 * p, q, true, 0);
        assert(q[0] == '"');
        assert(q.drop_first() =~= Seq::<char>::empty());
        assert((2 * p) % 2 == 0);
        assert((2 * p) / 2 == p);
        assert(read_cmd_word(Seq::<char>::empty(), false, 0) == Some(backslashes(0)));
        assert(backslashes(0) =~= Seq::<char>::empty());
        assert(backslashes(p) + Seq::<char>::empty() =~= backslashes(p));
        assert(backslashes(p) + s =~= backslashes(p));
    } else {
        let rest = s.drop_first();
        if s[0] == '\\' {
            lemma_read_cmd_quoted(rest, p + 1);
            lemma_backslashes_push(p);
            assert(backslashes(p + 1) + rest =~= backslashes(p) + s);
        } else if s[0] == '"' {
            lemma_read_cmd_quoted(rest, 0);
            let tail = cmd_quoted_body(rest, 0) + q;
            assert(body + q =~= backslashes(2 * p + 1) + (q + tail));
            lemma_read_cmd_backslashes(2 * p + 1, q + tail, true, 0);
            assert((q + tail)[0] == '"');
            assert((q + tail).drop_first() =~= tail);
            assert((2 * p + 1) % 2 == 1);
            assert((2 * p + 1) / 2 == p);
            assert(backslashes(0) + rest =~= rest);
            assert(backslashes(p) + seq!['"'] + rest =~= backslashes(p) + s);
        } else {
            lemma_read_cmd_quoted(rest, 0);
            let tail = cmd_quoted_body(rest, 0) + q;
            let c = seq![s[0]] + tail;
            assert(body + q =~= backslashes(p) + c);
            lemma_read_cmd_backslashes(p, c, true, 0);
            assert(c[0] == s[0]);
            assert(c.drop_first() =~= tail);
            assert(backslashes(0) + rest =~= rest);
            assert(backslashes(p) + seq![s[0]] + rest =~= backslashes(p) + s);
        }
    }
}

/// A word escaped for `cmd.exe` is read back as the text it was made from,
/// by the rules Windows programs split their command line with.
pub proof fn lemma_cmd_escape_round_trip(s: Seq<char>)
    ensures
        read_cmd_word(cmd_escaped(s), false, 0) == Some(s),
{
    if s.len() > 0 && forall|i: int| 0 <= i < s.len() ==> !#[trigger] cmd_special_char(s[i]) {
        lemma_read_cmd_plain(s, 0);
        assert(backslashes(0) + s =~= s);
    } else {
        let q = seq!['"'];
        let w = q + cmd_quoted_body(s, 0) + q;
        assert(w[0] == '"');
        assert(w.drop_first() =~= cmd_quoted_body(s, 0) + q);
        lemma_read_cmd_quoted(s, 0);
        assert(backslashes(0) + s =~= s);
    }
}

/// The path shown: `path` without `prefix` where it starts with it.
pub open spec fn without_prefix(path: Seq<char>, prefix: Option<Seq<char>>) -> Seq<char> {
    match prefix {
        Some(p) => if p.len() <= path.len() && path.take(p.len() as int) == p {
            path.skip(p.len() as int)
        } else {
            path
        },
        None => path,
    }
}

/// The path shown is the path with the prefix taken off its front: put the
/// prefix back in front and the path comes back; a path that does not start
/// with the prefix, or no prefix at all, leaves the path as it is.
pub proof fn lemma_without_prefix(path: Seq<char>, prefix: Option<Seq<char>>)
    ensures
        prefix is Some && prefix->0.len() <= path.len() && (forall|i: int|
            0 <= i < prefix->0.len() ==> #[trigger] path[i] == prefix->0[i]) ==> prefix->0
            + without_prefix(path, prefix) == path && without_prefix(path, prefix).len() == path.len()
            - prefix->0.len(),
        prefix is Some && (prefix->0.len() > path.len() || exists|i: int|
            0 <= i < prefix->0.len() && #[trigger] path[i] != prefix->0[i]) ==> without_prefix(
            path,
            prefix,
        ) == path,
        prefix is None ==> without_prefix(path, prefix) == path,
{
    if let Some(p) = prefix {
        if p.len() <= path.len() && (forall|i: int| 0 <= i < p.len() ==> #[trigger] path[i] == p[i]) {
            assert(path.take(p.len() as int) =~= p);
            assert(p + path.skip(p.len() as int) =~= path);
        }
        if p.len() <= path.len() && exists|i: int| 0 <= i < p.len() && #[trigger] path[i] != p[i] {
            let i = choose|i: int| 0 <= i < p.len() && #[trigger] path[i] != p[i];
            assert(path.take(p.len() as int)[i] != p[i]);
        }
    }
}

/// Removes `prefix` from the front of `path`, where `path` starts with it.
pub fn strip_path_prefix<'a>(path: &'a str, prefix: Option<&str>) -> (r: &'a str)
    ensures
        r@ == without_prefix(path@, match prefix {
            Some(p) => Some(p@),
            None => None,
        }),
{
    match prefix {
        None => path,
        Some(p) => {
            let n = path.unicode_len();
            let m = p.unicode_len();
            if m > n {
                return path;
            }
            let mut i: usize = 0;
            while i < m
                invariant
                    i <= m <= n,
                    prefix == Some(p),
                    n == path@.len(),
                    m == p@.len(),
                    forall|k: int| 0 <= k < i ==> path@[k] == p@[k],
                decreases m - i,
            {
                if path.get_char(i) != p.get_char(i) {
                    assert(path@.take(m as int)[i as int] != p@[i as int]);
                    assert(path@.take(m as int) != p@);
                    return path;
                }
                i = i + 1;
            }
            assert(path@.take(m as int) =~= p@);
            path.substring_char(m, n)
        },
    }
}

/// The command that removes a file: `rm` followed by its shown path,
/// escaped for the shell `q`.
pub open spec fn removal_command(path: Seq<char>, prefix: Option<Seq<char>>, q: Quoting) -> Seq<char> {
    "rm "@ + quoted_for(q, without_prefix(path, prefix))
}

/// Builds the command that removes the file at `path`.
pub fn rm_command(path: &str, prefix: Option<&str>, quoting: &Quoting) -> (r: String)
    ensures
        r@ == removal_command(path@, match prefix {
            Some(p) => Some(p@),
            None => None,
        }, *quoting),
{
    let shown = strip_path_prefix(path, prefix);
    let escaped = match quoting {
        Quoting::Posix => escape_for_shell(shown),
        Quoting::WindowsCmd => escape_for_cmd(shown),
    };
    let mut line = String::from_str("rm ");
    line.append(escaped.as_str());
    line
}

/// The removal commands of `files`, in order.
pub fn removal_commands(files: &Vec<FileToDelete>, prefix: Option<&str>, quoting: &Quoting) -> (r: Vec<String>)
    ensures
        r@.len() == files@.len(),
        forall|k: int| 0 <= k < files@.len() ==> (#[trigger] r@[k])@ == removal_command(files@[k].path@, match prefix {
            Some(p) => Some(p@),
            None => None,
        }, *quoting),
{
    let n = files.len();
    let mut r: Vec<String> = Vec::new();
    let mut i: usize = 0;
    while i < n
        invariant
            i <= n,
            n == files@.len(),
            r@.len() == i,
            forall|k: int| 0 <= k < i ==> (#[trigger] r@[k])@ == removal_command(files@[k].path@, match prefix {
                Some(p) => Some(p@),
                None => None,
            }, *quoting),
        decreases n - i,
    {
        r.push(rm_command(files[i].path.as_str(), prefix, quoting));
        i = i + 1;
    }
    r
}

} // verus!
