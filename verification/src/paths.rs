//! File paths as `/`-separated text, and the names of table files.

use crate::flags::same_text;
use crate::text::push_padded6;
use crate::types::FileNumber;
use vstd::prelude::*;
use vstd::string::*;

verus! {

/// First character of the name of a file that is still being written.
pub const SST_TMP_PREFIX: &'static str = ".";

/// End of the name of a file that is still being written.
pub const SST_TMP_SUFFIX: &'static str = ".tmp";

/// The index just after the last `/`, or 0 if there is none.
pub open spec fn name_start(path: Seq<char>) -> int
    decreases path.len(),
{
    if path.len() == 0 {
        0
    } else if path.last() == '/' {
        path.len() as int
    } else {
        name_start(path.drop_last())
    }
}

/// The path without what stands for nothing at its end: slashes, and `.` behind
/// a slash. The root keeps its slash.
pub open spec fn trimmed(path: Seq<char>) -> Seq<char>
    decreases path.len(),
{
    if path.len() > 1 && (path.last() == '/' || (path.last() == '.' && path[path.len() - 2]
        == '/')) {
        trimmed(path.drop_last())
    } else {
        path
    }
}

/// The last part of the path, if that is a name.
pub open spec fn file_name(path: Seq<char>) -> Option<Seq<char>> {
    let t = trimmed(path);
    let n = t.skip(name_start(t));
    if n.len() == 0 || n == "."@ || n == ".."@ {
        None
    } else {
        Some(n)
    }
}

/// The path without its last part: `None` for the empty path and for the root.
pub open spec fn parent(path: Seq<char>) -> Option<Seq<char>> {
    let t = trimmed(path);
    if t.len() == 0 || t == "/"@ {
        None
    } else {
        Some(trimmed(t.take(name_start(t))))
    }
}

/// `dir` with `name` below it.
pub open spec fn joined(dir: Seq<char>, name: Seq<char>) -> Seq<char> {
    if dir.len() == 0 || dir.last() == '/' {
        dir + name
    } else {
        dir + "/"@ + name
    }
}

/// The name of table file `number`.
pub open spec fn sst_name(number: FileNumber) -> Seq<char> {
    crate::text::padded(number.0 as nat, 6) + ".sst"@
}

/// The name of a file that is being written.
pub open spec fn temp_name(name: Seq<char>) -> Seq<char> {
    SST_TMP_PREFIX@ + name + SST_TMP_SUFFIX@
}

/// The path of a file that is being written: its name gets the temporary
/// prefix and suffix. A path without a name gets a name.
pub open spec fn temp_path(path: Seq<char>) -> Seq<char> {
    match file_name(path) {
        Some(n) => joined(parent(path)->0, temp_name(n)),
        None => joined(path, temp_name(Seq::empty())),
    }
}

proof fn lemma_name_start(path: Seq<char>, k: int)
    requires
        0 <= k <= path.len(),
        k > 0 ==> path[k - 1] == '/',
        forall|i: int| k <= i < path.len() ==> path[i] != '/',
    ensures
        name_start(path) == k,
    decreases path.len(),
{
    if path.len() > k {
        assert(path.last() == path[path.len() - 1]);
        let front = path.drop_last();
        assert(k > 0 ==> front[k - 1] == path[k - 1]);
        lemma_name_start(front, k);
    }
}

/// The index just after the last `/` among the first `n` characters.
fn find_name_start(path: &str, n: usize) -> (r: usize)
    requires
        n <= path@.len(),
    ensures
        r == name_start(path@.take(n as int)),
        r <= n,
{
    let mut k: usize = n;
    while k > 0
        invariant
            k <= n <= path@.len(),
            forall|i: int| k <= i < n ==> path@[i] != '/',
        decreases k,
    {
        if path.get_char(k - 1) == '/' {
            proof {
                lemma_name_start(path@.take(n as int), k as int);
            }
            return k;
        }
        k = k - 1;
    }
    proof {
        lemma_name_start(path@.take(n as int), 0);
    }
    0
}

/// How many of the first `n` characters are left when they are trimmed.
fn trimmed_len(path: &str, n: usize) -> (r: usize)
    requires
        n <= path@.len(),
    ensures
        r <= n,
        path@.take(r as int) == trimmed(path@.take(n as int)),
{
    let mut k: usize = n;
    while k > 1 && (path.get_char(k - 1) == '/' || (path.get_char(k - 1) == '.' && path.get_char(
        k - 2,
    ) == '/'))
        invariant
            k <= n <= path@.len(),
            trimmed(path@.take(n as int)) == trimmed(path@.take(k as int)),
        decreases k,
    {
        assert(path@.take(k as int).drop_last() =~= path@.take(k - 1));
        k = k - 1;
    }
    k
}

/// The last part of a path, if that is a name.
fn name_of(path: &str) -> (r: Option<&str>)
    ensures
        match r {
            Some(n) => file_name(path@) == Some(n@),
            None => file_name(path@) is None,
        },
{
    let whole: usize = path.unicode_len();
    assert(path@.take(whole as int) =~= path@);
    let n: usize = trimmed_len(path, whole);
    let k: usize = find_name_start(path, n);
    assert(path@.subrange(k as int, n as int) =~= trimmed(path@).skip(name_start(trimmed(path@))));
    let name: &str = path.substring_char(k, n);
    if k == n || same_text(name, ".") || same_text(name, "..") {
        None
    } else {
        Some(name)
    }
}

/// `dir` with `name` below it.
pub fn join(dir: &str, name: &str) -> (r: String)
    ensures
        r@ == joined(dir@, name@),
{
    let n: usize = dir.unicode_len();
    let mut out = String::new();
    out.append(dir);
    if n > 0 && dir.get_char(n - 1) != '/' {
        out.append("/");
    }
    out.append(name);
    assert(out@ =~= joined(dir@, name@));
    out
}

/// The path of table file `file_number` in `db_path`: six digits and `.sst`.
pub fn sst_file_path(db_path: &str, file_number: FileNumber) -> (r: String)
    ensures
        r@ == joined(db_path@, sst_name(file_number)),
{
    let mut name = String::new();
    push_padded6(&mut name, file_number.0);
    name.append(".sst");
    assert(name@ =~= sst_name(file_number));
    join(db_path, name.as_str())
}

/// The path of the output of a compaction.
pub fn compaction_output_path(db_path: &str, file_number: FileNumber) -> (r: String)
    ensures
        r@ == joined(db_path@, sst_name(file_number)),
{
    sst_file_path(db_path, file_number)
}

/// The path under which the file `path` is written before it is published.
pub fn sst_temp_path(path: &str) -> (r: String)
    ensures
        r@ == temp_path(path@),
{
    let mut name = String::new();
    name.append(SST_TMP_PREFIX);
    match name_of(path) {
        Some(n) => {
            name.append(n);
            name.append(SST_TMP_SUFFIX);
            assert(name@ =~= temp_name(n@));
            match parent_dir(path) {
                Some(dir) => join(dir.as_str(), name.as_str()),
                None => {
                    proof {
                        lemma_name_has_parent(path@);
                    }
                    join(path, name.as_str())
                },
            }
        },
        None => {
            name.append(SST_TMP_SUFFIX);
            assert(name@ =~= temp_name(Seq::empty()));
            join(path, name.as_str())
        },
    }
}

/// Whether the path ends in no name: it is empty, the root, `.`, or ends in
/// `..`.
pub fn is_nameless(path: &str) -> (r: bool)
    ensures
        r == (file_name(path@) is None),
{
    name_of(path).is_none()
}

/// The directory of a path; the empty path and the root have none.
pub fn parent_dir(path: &str) -> (r: Option<String>)
    ensures
        match r {
            Some(d) => parent(path@) == Some(d@),
            None => parent(path@) is None,
        },
{
    let whole: usize = path.unicode_len();
    assert(path@.take(whole as int) =~= path@);
    let n: usize = trimmed_len(path, whole);
    let ghost t = trimmed(path@);
    proof {
        reveal_strlit("/");
    }
    if n == 0 {
        return None;
    }
    if n == 1 && path.get_char(0) == '/' {
        assert(t =~= "/"@);
        return None;
    }
    assert(t != "/"@) by {
        if t == "/"@ {
            assert(t.len() == 1 && t[0] == '/');
            assert(path@.take(n as int)[0] == path@[0]);
        }
    }
    let k: usize = find_name_start(path, n);
    let e: usize = trimmed_len(path, k);
    assert(t.take(k as int) =~= path@.take(k as int));
    assert(path@.subrange(0, e as int) =~= path@.take(e as int));
    Some(path.substring_char(0, e).to_owned())
}

proof fn lemma_name_start_bounds(path: Seq<char>)
    ensures
        0 <= name_start(path) <= path.len(),
        name_start(path) > 0 ==> path[name_start(path) - 1] == '/',
        forall|i: int| name_start(path) <= i < path.len() ==> path[i] != '/',
    decreases path.len(),
{
    if path.len() > 0 && path.last() != '/' {
        let front = path.drop_last();
        lemma_name_start_bounds(front);
        assert forall|i: int| name_start(path) <= i < path.len() implies path[i] != '/' by {
            if i < front.len() {
                assert(front[i] == path[i]);
            }
        }
    }
}

proof fn lemma_name_has_parent(path: Seq<char>)
    ensures
        file_name(path) is Some ==> parent(path) is Some,
{
    let t = trimmed(path);
    lemma_name_start_bounds(t);
    if t == "/"@ {
        reveal_strlit("/");
        assert(t.last() == '/');
        assert(t.skip(name_start(t)).len() == 0);
    }
}

proof fn lemma_trimmed(path: Seq<char>)
    ensures
        trimmed(trimmed(path)) == trimmed(path),
        trimmed(path).len() > 1 ==> trimmed(path).last() != '/',
    decreases path.len(),
{
    if path.len() > 1 && (path.last() == '/' || (path.last() == '.' && path[path.len() - 2]
        == '/')) {
        lemma_trimmed(path.drop_last());
    }
}

/// A temporary path lies in the directory of the final one, and its name is
/// the final name between prefix and suffix: the final path can be found from
/// it.
pub proof fn law_temp_path_reverses(path: Seq<char>)
    requires
        file_name(path) is Some,
    ensures
        parent(temp_path(path)) == parent(path),
        file_name(temp_path(path)) == Some(temp_name(file_name(path)->0)),
        temp_name(file_name(path)->0).subrange(1, temp_name(file_name(path)->0).len() - 4)
            == file_name(path)->0,
{
    assert(SST_TMP_PREFIX@.len() == 1 && SST_TMP_PREFIX@[0] == '.') by {
        reveal_strlit(".");
    }
    assert(SST_TMP_SUFFIX@.len() == 4 && SST_TMP_SUFFIX@ =~= seq!['.', 't', 'm', 'p']) by {
        reveal_strlit(".tmp");
    }
    reveal_strlit("/");
    reveal_strlit(".");
    reveal_strlit("..");
    lemma_name_has_parent(path);
    let t = trimmed(path);
    lemma_name_start_bounds(t);
    let n = file_name(path)->0;
    assert forall|i: int| 0 <= i < n.len() implies n[i] != '/' by {
        assert(n[i] == t[name_start(t) + i]);
    }
    let p = parent(path)->0;
    lemma_trimmed(t.take(name_start(t)));
    assert(trimmed(p) == p);
    assert(p.len() > 1 ==> p.last() != '/');
    let m = temp_name(n);
    assert(m.subrange(1, m.len() - 4) =~= n);
    assert(m.last() == 'p');
    assert forall|i: int| 0 <= i < m.len() implies m[i] != '/' by {
        if 1 <= i < m.len() - 4 {
            assert(m[i] == n[i - 1]);
        }
    }
    let q = temp_path(path);
    let front = if p.len() == 0 || p.last() == '/' {
        p
    } else {
        p + "/"@
    };
    assert(q =~= front + m);
    assert(q.last() == 'p');
    assert(trimmed(q) == q);
    let k = front.len() as int;
    assert(k > 0 ==> q[k - 1] == '/') by {
        if k > 0 {
            assert(q[k - 1] == front[k - 1]);
        }
    }
    assert forall|i: int| k <= i < q.len() implies q[i] != '/' by {
        assert(q[i] == m[i - k]);
    }
    lemma_name_start(q, k);
    assert(q.skip(k) =~= m);
    assert(m.len() > 2);
    assert(q.take(k) =~= front);
    assert(q != "/"@) by {
        assert(q.len() > 1);
    }
    assert(trimmed(front) == p) by {
        if p.len() > 0 && p.last() != '/' {
            assert(front.drop_last() =~= p);
        }
    }
}

/// The path of a file in a directory: one `/` between the two, unless the directory
/// is empty or ends with one. A plain name can be read back from it, and so can the
/// directory, but for what its own path has at the end without meaning.
pub proof fn law_joined_path_reads_back(dir: Seq<char>, name: Seq<char>)
    requires
        name.len() > 0,
        name.last() != '.',
        forall|i: int| 0 <= i < name.len() ==> #[trigger] name[i] != '/',
    ensures
        joined(dir, name).len() <= dir.len() + 1 + name.len(),
        joined(dir, name).take(dir.len() as int) == dir,
        joined(dir, name).skip(joined(dir, name).len() - name.len()) == name,
        joined(dir, name).len() == dir.len() + name.len() + (if dir.len() > 0 && dir.last() != '/' {
            1int
        } else {
            0
        }),
        file_name(joined(dir, name)) == Some(name),
        dir.len() > 0 ==> parent(joined(dir, name)) == Some(
            trimmed(
                if dir.last() == '/' {
                    dir
                } else {
                    dir.push('/')
                },
            ),
        ),
{
    reveal_strlit("/");
    reveal_strlit(".");
    reveal_strlit("..");
    let q = joined(dir, name);
    let front = if dir.len() == 0 || dir.last() == '/' {
        dir
    } else {
        dir.push('/')
    };
    assert(q =~= front + name);
    assert(q.take(dir.len() as int) =~= dir);
    assert(q.skip(q.len() - name.len()) =~= name);
    assert(q.last() == name.last());
    assert(name[name.len() - 1] != '/');
    assert(trimmed(q) == q);
    let k = front.len() as int;
    assert forall|i: int| k <= i < q.len() implies q[i] != '/' by {
        assert(q[i] == name[i - k]);
    }
    if k > 0 {
        assert(q[k - 1] == front[k - 1]);
    }
    lemma_name_start(q, k);
    assert(q.skip(k) =~= name);
    assert(q.take(k) =~= front);
    assert(name != "."@) by {
        if name == "."@ {
            assert(name.last() == '.');
        }
    }
    assert(name != ".."@) by {
        if name == ".."@ {
            assert(name.last() == '.');
        }
    }
    if q == "/"@ {
        assert(q.last() == '/');
    }
}

/// A path is its parent and its name: the name has no `/`, is not a dot or two, ends
/// where the path does and starts after a `/` or with it. A path has no parent exactly
/// where it is empty or the root.
pub proof fn law_path_is_parent_and_name(path: Seq<char>)
    ensures
        ({
            let t = trimmed(path);
            &&& parent(path) is None <==> t.len() == 0 || t == seq!['/']
            &&& file_name(path) matches Some(n) ==> {
                let front = t.take(t.len() - n.len());
                &&& 0 < n.len() <= t.len()
                &&& t == front + n
                &&& n != seq!['.'] && n != seq!['.', '.']
                &&& forall|i: int| 0 <= i < n.len() ==> #[trigger] n[i] != '/'
                &&& front.len() > 0 ==> front.last() == '/'
                &&& parent(path) == Some(trimmed(front))
            }
        }),
{
    reveal_strlit("/");
    reveal_strlit(".");
    reveal_strlit("..");
    let t = trimmed(path);
    lemma_name_start_bounds(t);
    lemma_name_has_parent(path);
    assert("/"@ =~= seq!['/']);
    assert("."@ =~= seq!['.']);
    assert(".."@ =~= seq!['.', '.']);
    if let Some(n) = file_name(path) {
        let k = name_start(t);
        let front = t.take(t.len() - n.len());
        assert(t.len() - n.len() == k);
        assert(t =~= front + n);
        assert forall|i: int| 0 <= i < n.len() implies #[trigger] n[i] != '/' by {
            assert(n[i] == t[k + i]);
        }
    }
}

/// What a path has at its end without meaning: separators, and a dot after one.
pub proof fn law_trailing_separators_mean_nothing(path: Seq<char>)
    ensures
        path.len() > 0 ==> trimmed(path.push('/')) == trimmed(path),
        path.len() > 0 && path.last() == '/' ==> trimmed(path.push('.')) == trimmed(path),
        path.len() > 0 && path.last() != '/' && path.last() != '.' ==> trimmed(path) == path,
        path.len() > 1 && path.last() == '.' && path[path.len() - 2] != '/' ==> trimmed(path) == path,
        path.len() <= 1 ==> trimmed(path) == path,
{
    assert(path.push('/').drop_last() =~= path);
    assert(path.push('.').drop_last() =~= path);
}

/// Two table files never share a name; a name is at least six digits and `.sst`.
pub proof fn law_table_names_are_unique(a: FileNumber, b: FileNumber)
    ensures
        sst_name(a) == crate::text::padded(a.0 as nat, 6) + seq!['.', 's', 's', 't'],
        sst_name(a) == sst_name(b) ==> a == b,
{
    reveal_strlit(".sst");
    assert(".sst"@ =~= seq!['.', 's', 's', 't']);
    let p = crate::text::padded(a.0 as nat, 6);
    let q = crate::text::padded(b.0 as nat, 6);
    if sst_name(a) == sst_name(b) {
        assert(p =~= sst_name(a).take(sst_name(a).len() - 4));
        assert(q =~= sst_name(b).take(sst_name(b).len() - 4));
        crate::text::law_padding_is_zeros(a.0 as nat, 6);
        crate::text::law_padding_is_zeros(b.0 as nat, 6);
    }
}

/// The name of a file that is being written: a dot, the name and `.tmp`.
pub proof fn law_temp_name(name: Seq<char>)
    ensures
        temp_name(name) == seq!['.'] + name + seq!['.', 't', 'm', 'p'],
{
    assert(SST_TMP_PREFIX@ =~= seq!['.']) by {
        reveal_strlit(".");
    }
    assert(SST_TMP_SUFFIX@ =~= seq!['.', 't', 'm', 'p']) by {
        reveal_strlit(".tmp");
    }
}

} // verus!
