//! Object keys and local paths: how remote keys are built, trimmed, compared
//! and mapped onto local download destinations.
use vstd::prelude::*;
use vstd::utf8::encode_utf8;
use crate::text::{chars_of, chars_slice, string_of_str, has_prefix_at, push_char, push_chars, push_str, skip_run, string_of, trim_bounds, trim_char, trim_end_char, trim_start_char};

verus! {

/// The object key for a file at relative path `rel` uploaded under `remote`.
pub open spec fn upload_key(remote: Seq<char>, rel: Seq<char>) -> Seq<char> {
    let r = trim_char(remote, '/');
    if r.len() == 0 {
        rel
    } else {
        r + seq!['/'] + trim_start_char(rel, '/')
    }
}

/// Joins the remote directory and the relative path of an uploaded file into its
/// object key: the remote directory is trimmed of `/` on both ends, and an empty one
/// means the bucket root.
pub fn build_upload_key(remote_path: &str, rel_path: &str) -> (key: String)
    ensures
        key@ == upload_key(remote_path@, rel_path@),
{
    let remote = chars_of(remote_path);
    let rel = chars_of(rel_path);
    let (a, b) = trim_bounds(remote.as_slice(), '/');
    if a == b {
        return string_of(rel.as_slice(), 0, rel.len());
    }
    let mut key = string_of(remote.as_slice(), a, b);
    push_char(&mut key, '/');
    let i = skip_run(rel.as_slice(), 0, rel.len(), '/');
    push_chars(&mut key, rel.as_slice(), i, rel.len());
    proof {
        assert(rel@.subrange(0, rel@.len() as int) =~= rel@);
    }
    key
}

/// The directory prefix of `d`: `d` trimmed of `/` with one `/` added, or empty.
pub open spec fn directory_prefix(d: Seq<char>) -> Seq<char> {
    let t = trim_char(d, '/');
    if t.len() == 0 {
        seq![]
    } else {
        t.push('/')
    }
}

/// The key under which a directory marker for `key` is stored: `key` itself when it
/// ends with `/`, else `key` with a `/` added.
pub open spec fn directory_marker(key: Seq<char>) -> Seq<char> {
    if key.len() > 0 && key.last() == '/' {
        key
    } else {
        key.push('/')
    }
}

/// The key of the directory marker for `key`.
pub fn directory_marker_key(key: &str) -> (marker: String)
    ensures
        marker@ == directory_marker(key@),
{
    let k = chars_of(key);
    let mut marker = string_of(k.as_slice(), 0, k.len());
    proof {
        assert(k@.subrange(0, k@.len() as int) =~= k@);
    }
    if k.len() > 0 && k[k.len() - 1] == '/' {
        marker
    } else {
        push_char(&mut marker, '/');
        marker
    }
}

/// `key` relative to the remote directory `base` (both trimmed of `/`), or the
/// trimmed `key` itself where it does not lie under `base`.
pub open spec fn relative_key_of(key: Seq<char>, base: Seq<char>) -> Seq<char> {
    let k = trim_char(key, '/');
    let b = trim_char(base, '/');
    if b.len() == 0 {
        k
    } else if b.is_prefix_of(k) && k.len() > b.len() && k[b.len() as int] == '/' {
        k.skip(b.len() + 1int)
    } else {
        k
    }
}

/// The part of `key` below the remote directory `base_remote`.
pub fn relative_key(key: &str, base_remote: &str) -> (rel: String)
    ensures
        rel@ == relative_key_of(key@, base_remote@),
{
    let k = chars_of(key);
    let b = chars_of(base_remote);
    let (ka, kb) = trim_bounds(k.as_slice(), '/');
    let (ba, bb) = trim_bounds(b.as_slice(), '/');
    let ghost kt = k@.subrange(ka as int, kb as int);
    let ghost bt = b@.subrange(ba as int, bb as int);
    if ba == bb {
        return string_of(k.as_slice(), ka, kb);
    }
    let base_trimmed = chars_slice(b.as_slice(), ba, bb);
    assert(base_trimmed@ == bt);
    let n = bb - ba;
    if has_prefix_at(k.as_slice(), ka, kb, base_trimmed.as_slice()) && kb - ka > n && k[ka + n] == '/' {
        assert(kt[n as int] == k@[ka + n]);
        let r = string_of(k.as_slice(), ka + n + 1, kb);
        assert(r@ =~= kt.skip(n + 1));
        r
    } else {
        proof {
            if bt.is_prefix_of(kt) && kt.len() > bt.len() {
                assert(kt[n as int] == k@[ka + n]);
            }
        }
        string_of(k.as_slice(), ka, kb)
    }
}

/// `key` with `prefix` removed from its front, where `prefix` is non-empty and is one.
pub open spec fn without_prefix(prefix: Seq<char>, key: Seq<char>) -> Seq<char> {
    if prefix.len() > 0 && prefix.is_prefix_of(key) {
        key.skip(prefix.len() as int)
    } else {
        key
    }
}

/// Where `key` goes when the prefix `source` is moved to `target`: `target` followed by
/// what comes after `source` in `key`, or `target` alone where `key` does not begin
/// with `source`.
pub open spec fn moved_key(key: Seq<char>, source: Seq<char>, target: Seq<char>) -> Seq<char> {
    if source.is_prefix_of(key) {
        target + key.skip(source.len() as int)
    } else {
        target
    }
}

/// The position of the last `c` in `s`, if any (`str::rfind` with a `char`).
pub open spec fn last_index_of(s: Seq<char>, c: char) -> Option<int>
    decreases s.len(),
{
    if s.len() == 0 {
        None
    } else if s.last() == c {
        Some(s.len() - 1)
    } else {
        last_index_of(s.drop_last(), c)
    }
}

proof fn lemma_last_index_of(s: Seq<char>, c: char, j: int)
    requires
        -1 <= j < s.len(),
        j >= 0 ==> s[j] == c,
        forall|k: int| j < k < s.len() ==> s[k] != c,
    ensures
        last_index_of(s, c) == (if j >= 0 { Some(j) } else { None::<int> }),
    decreases s.len(),
{
    if s.len() > 0 && j < s.len() - 1 {
        lemma_last_index_of(s.drop_last(), c, j);
    }
}

/// The remote directory that holds `key`: the trimmed key up to its last `/`, or empty.
pub open spec fn parent_prefix(key: Seq<char>) -> Seq<char> {
    let n = trim_char(key, '/');
    match last_index_of(n, '/') {
        Some(i) => n.take(i),
        None => seq![],
    }
}

/// The parent directory of a remote key, used as the base of relative download paths.
pub fn parent_remote_prefix(key: &str) -> (parent: String)
    ensures
        parent@ == parent_prefix(key@),
{
    let k = chars_of(key);
    let (a, b) = trim_bounds(k.as_slice(), '/');
    let ghost n = k@.subrange(a as int, b as int);
    let mut j = b;
    while j > a && k[j - 1] != '/'
        invariant
            a <= j <= b <= k@.len(),
            forall|m: int| j <= m < b ==> k@[m] != '/',
        decreases j - a,
    {
        j = j - 1;
    }
    proof {
        lemma_last_index_of(n, '/', j - a - 1);
    }
    if j == a {
        String::new()
    } else {
        let parent = string_of(k.as_slice(), a, j - 1);
        assert(parent@ =~= n.take(j - a - 1));
        parent
    }
}

/// `s` split at every `c` (`str::split` with a `char`): always at least one piece.
pub open spec fn split_char(s: Seq<char>, c: char) -> Seq<Seq<char>>
    decreases s.len(),
{
    if s.len() == 0 {
        seq![seq![]]
    } else {
        let rest = split_char(s.drop_last(), c);
        if s.last() == c {
            rest.push(seq![])
        } else {
            rest.update(rest.len() - 1, rest.last().push(s.last()))
        }
    }
}

proof fn lemma_split_char_nonempty(s: Seq<char>, c: char)
    ensures
        split_char(s, c).len() >= 1,
    decreases s.len(),
{
    if s.len() > 0 {
        lemma_split_char_nonempty(s.drop_last(), c);
    }
}

/// A path segment that a download may write to: not empty, not `.` or `..`, and
/// free of `\`.
pub open spec fn segment_allowed(seg: Seq<char>) -> bool {
    &&& seg.len() > 0
    &&& seg != seq!['.']
    &&& seg != seq!['.', '.']
    &&& !seg.contains('\\')
}

/// `base` with the relative segment `seg` appended, as `PathBuf::push` does on Unix.
pub open spec fn path_push(base: Seq<char>, seg: Seq<char>) -> Seq<char> {
    if base.len() == 0 || base.last() == '/' {
        base + seg
    } else {
        base.push('/') + seg
    }
}

/// `base` with every segment of `segs` appended in order.
pub open spec fn path_push_all(base: Seq<char>, segs: Seq<Seq<char>>) -> Seq<char>
    decreases segs.len(),
{
    if segs.len() == 0 {
        base
    } else {
        path_push(path_push_all(base, segs.drop_last()), segs.last())
    }
}

/// Why a download destination was refused.
#[derive(Debug, Clone, PartialEq, Eq)]
pub enum PathError {
    /// The key names nothing below the chosen remote directory.
    EmptyDestination,
    /// The key holds a segment that could leave the download directory (the key).
    IllegalKey(String),
}

impl PathError {
    /// The text of the message shown to the user; a refused key is named in it.
    pub open spec fn message_text(&self) -> Seq<char> {
        match self {
            PathError::EmptyDestination => "下载路径不能为空"@,
            PathError::IllegalKey(key) => "非法对象路径: "@ + key@,
        }
    }

    /// The message shown to the user.
    pub fn message(&self) -> (m: String)
        ensures
            m@ == self.message_text(),
    {
        match self {
            PathError::EmptyDestination => "下载路径不能为空".to_string(),
            PathError::IllegalKey(key) => {
                let mut m = "非法对象路径: ".to_string();
                push_str(&mut m, key.as_str());
                m
            },
        }
    }
}

/// Whether `cs[from..to]` is an allowed segment.
fn segment_ok(cs: &[char], from: usize, to: usize) -> (ok: bool)
    requires
        from <= to <= cs@.len(),
    ensures
        ok == segment_allowed(cs@.subrange(from as int, to as int)),
{
    let ghost seg = cs@.subrange(from as int, to as int);
    if from == to {
        return false;
    }
    if to - from == 1 && cs[from] == '.' {
        assert(seg =~= seq!['.']);
        return false;
    }
    if to - from == 2 && cs[from] == '.' && cs[from + 1] == '.' {
        assert(seg =~= seq!['.', '.']);
        return false;
    }
    let mut i = from;
    while i < to
        invariant
            from <= i <= to <= cs@.len(),
            forall|m: int| from <= m < i ==> cs@[m] != '\\',
            seg == cs@.subrange(from as int, to as int),
        decreases to - i,
    {
        if cs[i] == '\\' {
            assert(seg[(i - from) as int] == cs@[i as int]);
            return false;
        }
        i = i + 1;
    }
    proof {
        if seg.contains('\\') {
            let m = choose|m: int| 0 <= m < seg.len() && seg[m] == '\\';
            assert(cs@[from + m] == '\\');
        }
        if seg.len() == 1 {
            assert(seg[0] == cs@[from as int]);
            assert(seg != seq!['.']);
        }
        if seg.len() == 2 {
            assert(seg[0] == cs@[from as int]);
            assert(seg[1] == cs@[from + 1]);
            assert(seq!['.', '.'][0] == '.');
            assert(seq!['.', '.'][1] == '.');
            assert(seg != seq!['.', '.']);
        }
        assert(seg.len() != 1 ==> seg != seq!['.']);
        assert(seg.len() != 2 ==> seg != seq!['.', '.']);
    }
    true
}

/// Appends the segment `cs[from..to]` to the path `dest` as `path_push` does.
fn push_segment(dest: &mut String, cs: &[char], from: usize, to: usize)
    requires
        from <= to <= cs@.len(),
    ensures
        final(dest)@ == path_push(old(dest)@, cs@.subrange(from as int, to as int)),
{
    let d = chars_of(dest.as_str());
    if d.len() > 0 && d[d.len() - 1] != '/' {
        push_char(dest, '/');
    }
    push_chars(dest, cs, from, to);
}

/// The result of `safe_local_destination` on the root `root`, the remote directory
/// `base` and the key `key`.
pub open spec fn local_destination(root: Seq<char>, base: Seq<char>, key: Seq<char>) -> Result<
    Seq<char>,
    PathError,
> {
    let rel = relative_key_of(key, base);
    let segs = split_char(rel, '/');
    if rel.len() == 0 {
        Err(PathError::EmptyDestination)
    } else if exists|i: int| 0 <= i < segs.len() && !segment_allowed(#[trigger] segs[i]) {
        Err(PathError::IllegalKey(arbitrary()))
    } else {
        Ok(path_push_all(root, segs))
    }
}

/// The local file that a downloaded object is written to: the object's path below
/// `base_remote`, segment by segment below `local_root`. Refused where that path is
/// empty or a segment is empty, `.`, `..` or holds `\\`.
pub fn safe_local_destination(local_root: &str, base_remote: &str, key: &str) -> (r: Result<
    String,
    PathError,
>)
    ensures
        match (r, local_destination(local_root@, base_remote@, key@)) {
            (Ok(dest), Ok(expected)) => dest@ == expected,
            (Err(PathError::EmptyDestination), Err(PathError::EmptyDestination)) => true,
            (Err(PathError::IllegalKey(k)), Err(PathError::IllegalKey(_))) => k@ == key@,
            _ => false,
        },
{
    let relative = relative_key(key, base_remote);
    let rel = chars_of(relative.as_str());
    let ghost segs = split_char(rel@, '/');
    if rel.len() == 0 {
        return Err(PathError::EmptyDestination);
    }
    let mut dest = string_of_str(local_root);
    let mut start: usize = 0;
    let mut i: usize = 0;
    let ghost mut done: Seq<Seq<char>> = seq![];
    proof {
        assert(rel@.take(0) =~= Seq::<char>::empty());
        assert(rel@.subrange(0, 0) =~= Seq::<char>::empty());
        assert(split_char(rel@.take(0), '/') =~= done.push(rel@.subrange(0, 0)));
        assert(dest@ == path_push_all(local_root@, done));
    }
    while i < rel.len()
        invariant
            0 <= start <= i <= rel@.len(),
            segs == split_char(rel@, '/'),
            rel@ == relative_key_of(key@, base_remote@),
            split_char(rel@.take(i as int), '/') == done.push(rel@.subrange(start as int, i as int)),
            forall|m: int| 0 <= m < done.len() ==> segment_allowed(#[trigger] done[m]),
            dest@ == path_push_all(local_root@, done),
        decreases rel@.len() - i,
    {
        proof {
            assert(rel@.take(i + 1).drop_last() =~= rel@.take(i as int));
            assert(rel@.take(i + 1).last() == rel@[i as int]);
        }
        if rel[i] == '/' {
            if !segment_ok(rel.as_slice(), start, i) {
                proof {
                    lemma_split_prefix_kept(rel@, '/', i as int + 1);
                    assert(split_char(rel@.take(i + 1), '/') =~= done.push(rel@.subrange(start as int, i as int)).push(seq![]));
                    assert(split_char(rel@.take(i + 1), '/')[done.len() as int] == rel@.subrange(start as int, i as int));
                    assert(segs[done.len() as int] == split_char(rel@.take(i + 1), '/')[done.len() as int]);
                    assert(!segment_allowed(segs[done.len() as int]));

                }
                return Err(PathError::IllegalKey(string_of_str(key)));
            }
            push_segment(&mut dest, rel.as_slice(), start, i);
            proof {
                let seg = rel@.subrange(start as int, i as int);
                assert(done.push(seg).drop_last() =~= done);
                done = done.push(seg);
                assert(rel@.subrange((i + 1) as int, (i + 1) as int) =~= Seq::<char>::empty());
            }
            start = i + 1;
        } else {
            proof {
                assert(rel@.subrange(start as int, i + 1) =~= rel@.subrange(start as int, i as int).push(rel@[i as int]));
                assert(done.push(rel@.subrange(start as int, i as int)).update(done.len() as int, rel@.subrange(start as int, i + 1))
                    =~= done.push(rel@.subrange(start as int, i + 1)));
            }
        }
        i = i + 1;
    }
    assert(rel@.take(rel@.len() as int) =~= rel@);
    if !segment_ok(rel.as_slice(), start, i) {
        assert(segs[done.len() as int] == rel@.subrange(start as int, i as int));
        return Err(PathError::IllegalKey(string_of_str(key)));
    }
    push_segment(&mut dest, rel.as_slice(), start, i);
    proof {
        let seg = rel@.subrange(start as int, i as int);
        assert(segs =~= done.push(seg));
        assert(segs.drop_last() =~= done);
        assert forall|m: int| 0 <= m < segs.len() implies segment_allowed(#[trigger] segs[m]) by {
            if m < done.len() {
                assert(segs[m] == done[m]);
            }
        }
    }
    Ok(dest)
}

/// The earlier pieces of a split are kept when more text is added.
proof fn lemma_split_prefix_kept(s: Seq<char>, c: char, n: int)
    requires
        0 <= n <= s.len(),
    ensures
        split_char(s.take(n), c).len() <= split_char(s, c).len(),
        forall|m: int| 0 <= m < split_char(s.take(n), c).len() - 1 ==>
            #[trigger] split_char(s, c)[m] == split_char(s.take(n), c)[m],
    decreases s.len() - n,
{
    if n < s.len() {
        lemma_split_prefix_kept(s.drop_last(), c, n);
        assert(s.drop_last().take(n) =~= s.take(n));
        lemma_split_char_nonempty(s.drop_last(), c);
    } else {
        assert(s.take(n) =~= s);
    }
}

/// A byte that the copy source keeps as it is: an ASCII letter or digit, or one of
/// `-`, `_`, `.`, `~`, `/`.
pub open spec fn kept_in_copy_source(b: u8) -> bool {
    (0x41 <= b <= 0x5a) || (0x61 <= b <= 0x7a) || (0x30 <= b <= 0x39) || b == 0x2d || b == 0x5f
        || b == 0x2e || b == 0x7e || b == 0x2f
}

/// The upper-case hexadecimal digit for `n` (below 16).
pub open spec fn hex_digit(n: u8) -> char {
    if n < 10 {
        ((0x30 + n) as u8) as char
    } else {
        ((0x41 + n - 10) as u8) as char
    }
}

/// How one byte of a key is written in a copy source: itself, or `%` and two
/// upper-case hexadecimal digits.
pub open spec fn encoded_byte(b: u8) -> Seq<char> {
    if kept_in_copy_source(b) {
        seq![b as char]
    } else {
        seq!['%', hex_digit(b / 16), hex_digit(b % 16)]
    }
}

/// The percent-encoding of a key's bytes.
pub open spec fn percent_encoded(bytes: Seq<u8>) -> Seq<char>
    decreases bytes.len(),
{
    if bytes.len() == 0 {
        seq![]
    } else {
        percent_encoded(bytes.drop_last()) + encoded_byte(bytes.last())
    }
}

/// How many keys one batch deletion may name.
pub const DELETE_BATCH_SIZE: usize = 1000;

/// The keys split into consecutive batches of at most `DELETE_BATCH_SIZE`, in order.
pub open spec fn delete_batches(keys: Seq<String>) -> Seq<Seq<String>> {
    Seq::new(
        ((keys.len() + 999) / 1000) as nat,
        |i: int| keys.subrange(i * 1000, if (i + 1) * 1000 <= keys.len() { (i + 1) * 1000 } else { keys.len() as int }),
    )
}

} // verus!

verus! {

/// Appending segments to a path keeps the path in front.
proof fn lemma_path_push_all_extends(base: Seq<char>, segs: Seq<Seq<char>>)
    ensures
        base.is_prefix_of(path_push_all(base, segs)),
    decreases segs.len(),
{
    if segs.len() > 0 {
        let p = path_push_all(base, segs.drop_last());
        lemma_path_push_all_extends(base, segs.drop_last());
        let q = path_push(p, segs.last());
        assert(q.take(p.len() as int) =~= p);
        assert(q.take(base.len() as int) =~= p.take(base.len() as int));
    }
}

/// A download never leaves the chosen directory: a destination that is granted lies
/// below `root`, and every segment that was appended to `root` is non-empty, neither
/// `.` nor `..`, and free of `\`.
pub proof fn lemma_destination_below_root(root: Seq<char>, base: Seq<char>, key: Seq<char>)
    ensures
        local_destination(root, base, key) matches Ok(dest) ==> {
            let segs = split_char(relative_key_of(key, base), '/');
            &&& root.is_prefix_of(dest)
            &&& dest == path_push_all(root, segs)
            &&& forall|i: int| 0 <= i < segs.len() ==> segment_allowed(#[trigger] segs[i])
        },
{
    let segs = split_char(relative_key_of(key, base), '/');
    lemma_path_push_all_extends(root, segs);
}

} // verus!

verus! {

/// Batched deletion names every key once, in order: each batch holds between 1 and
/// `DELETE_BATCH_SIZE` keys, and key `k` is entry `k % 1000` of batch `k / 1000`.
pub proof fn lemma_delete_batches_cover(keys: Seq<String>)
    ensures
        forall|i: int| 0 <= i < delete_batches(keys).len() ==> 0 < (#[trigger] delete_batches(keys)[i]).len() <= 1000,
        forall|k: int| 0 <= k < keys.len() ==> k / 1000 < delete_batches(keys).len() && (#[trigger] keys[k]) == delete_batches(
            keys,
        )[k / 1000][k % 1000],
{
    let n = keys.len() as int;
    let b = delete_batches(keys);
    assert forall|i: int| 0 <= i < b.len() implies 0 < (#[trigger] b[i]).len() <= 1000 by {
        assert(i * 1000 < n) by (nonlinear_arith)
            requires
                0 <= i < (n + 999) / 1000,
                n >= 0,
        ;
    }
    assert forall|k: int| 0 <= k < n implies k / 1000 < b.len() && (#[trigger] keys[k]) == b[k / 1000][k % 1000] by {
        let q = k / 1000;
        let r = k % 1000;
        assert(k == q * 1000 + r && 0 <= r < 1000 && q >= 0) by (nonlinear_arith)
            requires
                0 <= k,
                q == k / 1000,
                r == k % 1000,
        ;
        assert(q < (n + 999) / 1000) by (nonlinear_arith)
            requires
                k == q * 1000 + r,
                0 <= r < 1000,
                q >= 0,
                k < n,
        ;
        assert(b[q] == keys.subrange(q * 1000, if (q + 1) * 1000 <= n { (q + 1) * 1000 } else { n }));
    }
}

} // verus!

verus! {

proof fn lemma_trim_start_first(s: Seq<char>, c: char)
    ensures
        trim_start_char(s, c).len() > 0 ==> trim_start_char(s, c)[0] != c,
        trim_start_char(s, c).len() <= s.len(),
        (s.len() == 0 || s[0] != c) ==> trim_start_char(s, c) == s,
    decreases s.len(),
{
    if s.len() > 0 && s[0] == c {
        lemma_trim_start_first(s.drop_first(), c);
    }
}

proof fn lemma_trim_end_prefix(s: Seq<char>, c: char)
    ensures
        trim_end_char(s, c).is_prefix_of(s),
        trim_end_char(s, c).len() > 0 ==> trim_end_char(s, c).last() != c,
    decreases s.len(),
{
    if s.len() > 0 && s.last() == c {
        lemma_trim_end_prefix(s.drop_last(), c);
        let t = trim_end_char(s.drop_last(), c);
        assert forall|i: int| 0 <= i < t.len() implies t[i] == s[i] by {
            assert(t[i] == s.drop_last()[i]);
        }
    }
}

/// Trailing runs come off the end only: where `b` is not all `c`, trimming `a + b`
/// trims `b` alone.
proof fn lemma_trim_end_concat(a: Seq<char>, b: Seq<char>, c: char)
    requires
        trim_end_char(b, c).len() > 0,
    ensures
        trim_end_char(a + b, c) == a + trim_end_char(b, c),
    decreases b.len(),
{
    if b.len() > 0 && b.last() == c {
        lemma_trim_end_concat(a, b.drop_last(), c);
        assert((a + b).drop_last() =~= a + b.drop_last());
    } else {
        assert(b.len() > 0);
        assert((a + b).last() == b.last());
    }
}

/// `trim_char(s, c)`, where not empty, neither begins nor ends with `c`.
proof fn lemma_trim_char_ends(s: Seq<char>, c: char)
    ensures
        trim_char(s, c).len() > 0 ==> trim_char(s, c)[0] != c && trim_char(s, c).last() != c,
{
    let t = trim_start_char(s, c);
    lemma_trim_start_first(s, c);
    lemma_trim_end_prefix(t, c);
    if trim_char(s, c).len() > 0 {
        assert(trim_char(s, c)[0] == t[0]);
    }
}

/// Uploading keeps every folder of the relative path: below a remote directory that
/// is not empty once trimmed of `/`, the key is that directory, one `/`, and the
/// whole relative path without its leading `/`; at the bucket root the key is the
/// relative path itself.
pub proof fn lemma_upload_key_keeps_folders(remote: Seq<char>, rel: Seq<char>)
    ensures
        trim_char(remote, '/').len() == 0 ==> upload_key(remote, rel) == rel,
        trim_char(remote, '/').len() > 0 ==> {
            let r = trim_char(remote, '/');
            let key = upload_key(remote, rel);
            &&& r.is_prefix_of(key)
            &&& key[r.len() as int] == '/'
            &&& key.skip(r.len() + 1int) == trim_start_char(rel, '/')
            &&& key.len() == r.len() + 1 + trim_start_char(rel, '/').len()
        },
{
    let r = trim_char(remote, '/');
    if r.len() > 0 {
        let key = upload_key(remote, rel);
        assert(key.skip(r.len() + 1int) =~= trim_start_char(rel, '/'));
    }
}

/// A file uploaded below a remote directory is found again at its relative path
/// below that directory: mapping its key back relative to the remote directory
/// gives the relative path trimmed of `/`.
pub proof fn lemma_upload_then_relative(remote: Seq<char>, rel: Seq<char>)
    requires
        trim_char(remote, '/').len() > 0,
        trim_char(rel, '/').len() > 0,
    ensures
        relative_key_of(upload_key(remote, rel), remote) == trim_char(rel, '/'),
{
    let r = trim_char(remote, '/');
    let t = trim_start_char(rel, '/');
    let u = trim_char(rel, '/');
    let key = upload_key(remote, rel);
    lemma_trim_char_ends(remote, '/');
    assert(key == r + seq!['/'] + t);
    assert(key[0] == r[0]);
    lemma_trim_start_first(key, '/');
    assert(trim_start_char(key, '/') == key);
    assert(trim_end_char(t, '/') == u);
    lemma_trim_end_concat(r + seq!['/'], t, '/');
    let k = trim_char(key, '/');
    assert(k == r + seq!['/'] + u);
    assert(r.is_prefix_of(k)) by {
        assert(k.take(r.len() as int) =~= r);
    }
    assert(k[r.len() as int] == '/');
    assert(k.skip(r.len() + 1int) =~= u);
}

/// Where the trimmed key lies below the trimmed, non-empty remote directory, the
/// relative key is the rest of it: the directory, `/` and the relative key give the
/// key back, however deeply the directory is nested. Elsewhere the relative key is
/// the trimmed key itself.
pub proof fn lemma_relative_key_below_base(key: Seq<char>, base: Seq<char>)
    ensures
        trim_char(base, '/').len() > 0 && (trim_char(base, '/') + seq!['/']).is_prefix_of(trim_char(key, '/'))
            ==> trim_char(base, '/') + seq!['/'] + relative_key_of(key, base) == trim_char(key, '/'),
        !(trim_char(base, '/') + seq!['/']).is_prefix_of(trim_char(key, '/')) ==> relative_key_of(key, base)
            == trim_char(key, '/'),
{
    let b = trim_char(base, '/');
    let k = trim_char(key, '/');
    let p = b + seq!['/'];
    if b.len() > 0 && p.is_prefix_of(k) {
        assert(b.is_prefix_of(k)) by {
            assert forall|i: int| 0 <= i < b.len() implies b[i] == k[i] by {
                assert(p[i] == b[i]);
            }
        }
        assert(k[b.len() as int] == p[b.len() as int]);
        assert(b + seq!['/'] + k.skip(b.len() + 1int) =~= k);
    }
    if !p.is_prefix_of(k) && b.len() > 0 && b.is_prefix_of(k) && k.len() > b.len() && k[b.len() as int] == '/' {
        assert(p.is_prefix_of(k)) by {
            assert forall|i: int| 0 <= i < p.len() implies p[i] == k[i] by {
                if i < b.len() {
                    assert(p[i] == b[i]);
                }
            }
        }
    }
}

} // verus!

verus! {

/// The value of an upper-case hexadecimal digit.
pub open spec fn hex_value(c: char) -> Option<nat> {
    if '0' <= c && c <= '9' {
        Some((c as nat - 0x30) as nat)
    } else if 'A' <= c && c <= 'F' {
        Some((c as nat - 0x41 + 10) as nat)
    } else {
        None
    }
}

/// The bytes that a percent-encoded text stands for, read from the front: `%` and
/// two hexadecimal digits stand for that byte, any other ASCII character for itself;
/// anything else is not a valid encoding.
pub open spec fn percent_decoded(s: Seq<char>) -> Option<Seq<u8>>
    decreases s.len(),
{
    if s.len() == 0 {
        Some(seq![])
    } else if s[0] == '%' {
        if s.len() >= 3 && hex_value(s[1]) is Some && hex_value(s[2]) is Some {
            match percent_decoded(s.skip(3)) {
                Some(rest) => Some(seq![(hex_value(s[1])->0 * 16 + hex_value(s[2])->0) as u8] + rest),
                None => None,
            }
        } else {
            None
        }
    } else if (s[0] as u32) < 128 {
        match percent_decoded(s.skip(1)) {
            Some(rest) => Some(seq![s[0] as u8] + rest),
            None => None,
        }
    } else {
        None
    }
}

proof fn lemma_percent_encoded_concat(a: Seq<u8>, b: Seq<u8>)
    ensures
        percent_encoded(a + b) == percent_encoded(a) + percent_encoded(b),
    decreases b.len(),
{
    if b.len() == 0 {
        assert(a + b =~= a);
        assert(percent_encoded(a) + percent_encoded(b) =~= percent_encoded(a));
    } else {
        lemma_percent_encoded_concat(a, b.drop_last());
        assert((a + b).drop_last() =~= a + b.drop_last());
        assert((a + b).last() == b.last());
        assert(percent_encoded(a) + percent_encoded(b.drop_last()) + encoded_byte(b.last())
            =~= percent_encoded(a) + (percent_encoded(b.drop_last()) + encoded_byte(b.last())));
    }
}

proof fn lemma_hex_round_trip(n: u8)
    requires
        n < 16,
    ensures
        hex_value(hex_digit(n)) == Some(n as nat),
{
}

/// Reading one encoded byte at the front gives the byte back and goes on with the
/// rest.
proof fn lemma_decode_front(b: u8, rest: Seq<char>)
    ensures
        percent_decoded(encoded_byte(b) + rest) == (match percent_decoded(rest) {
            Some(r) => Some(seq![b] + r),
            None => None::<Seq<u8>>,
        }),
{
    let s = encoded_byte(b) + rest;
    if kept_in_copy_source(b) {
        assert(s[0] == b as char);
        assert((b as char) as u32 == b as u32);
        assert(s[0] != '%');
        assert(s.skip(1) =~= rest);
        assert((s[0] as u8) == b);
    } else {
        let hi = b / 16;
        let lo = b % 16;
        lemma_hex_round_trip(hi);
        lemma_hex_round_trip(lo);
        assert(s[0] == '%');
        assert(s[1] == hex_digit(hi));
        assert(s[2] == hex_digit(lo));
        assert(s.skip(3) =~= rest);
        assert(hi * 16 + lo == b);
    }
}

/// A percent-encoded copy source decodes back to exactly the key's bytes: `%` is
/// always escaped, and every escape stands for the byte it came from.
pub proof fn lemma_percent_encoding_decodes(bytes: Seq<u8>)
    ensures
        percent_decoded(percent_encoded(bytes)) == Some(bytes),
    decreases bytes.len(),
{
    if bytes.len() > 0 {
        let first = bytes[0];
        let rest = bytes.drop_first();
        assert(bytes =~= seq![first] + rest);
        lemma_percent_encoded_concat(seq![first], rest);
        assert(seq![first].drop_last() =~= Seq::<u8>::empty());
        assert(percent_encoded(Seq::<u8>::empty()) == Seq::<char>::empty());
        assert(percent_encoded(seq![first]) == percent_encoded(seq![first].drop_last()) + encoded_byte(seq![first].last()));
        assert(percent_encoded(seq![first]) =~= encoded_byte(first));
        lemma_percent_encoding_decodes(rest);
        lemma_decode_front(first, percent_encoded(rest));
        assert(seq![first] + rest =~= bytes);
    }
}

} // verus!

verus! {

/// `s` trimmed of `c` is empty exactly when every character of `s` is `c`.
pub proof fn lemma_trim_char_nonempty(s: Seq<char>, c: char)
    ensures
        trim_char(s, c).len() > 0 <==> exists|i: int| 0 <= i < s.len() && s[i] != c,
{
    lemma_trim_start_nonempty(s, c);
    lemma_trim_end_nonempty(trim_start_char(s, c), c);
    if trim_start_char(s, c).len() > 0 {
        lemma_trim_start_first(s, c);
    }
}

proof fn lemma_trim_start_nonempty(s: Seq<char>, c: char)
    ensures
        trim_start_char(s, c).len() > 0 <==> exists|i: int| 0 <= i < s.len() && s[i] != c,
    decreases s.len(),
{
    if s.len() > 0 && s[0] == c {
        lemma_trim_start_nonempty(s.drop_first(), c);
        if exists|i: int| 0 <= i < s.len() && s[i] != c {
            let i = choose|i: int| 0 <= i < s.len() && s[i] != c;
            assert(s.drop_first()[i - 1] != c);
        }
        if exists|i: int| 0 <= i < s.drop_first().len() && s.drop_first()[i] != c {
            let i = choose|i: int| 0 <= i < s.drop_first().len() && s.drop_first()[i] != c;
            assert(s[i + 1] != c);
        }
    } else if s.len() > 0 {
        assert(s[0] != c);
    }
}

proof fn lemma_trim_end_nonempty(s: Seq<char>, c: char)
    ensures
        trim_end_char(s, c).len() > 0 <==> exists|i: int| 0 <= i < s.len() && s[i] != c,
    decreases s.len(),
{
    if s.len() > 0 && s.last() == c {
        lemma_trim_end_nonempty(s.drop_last(), c);
        if exists|i: int| 0 <= i < s.len() && s[i] != c {
            let i = choose|i: int| 0 <= i < s.len() && s[i] != c;
            assert(s.drop_last()[i] != c);
        }
        if exists|i: int| 0 <= i < s.drop_last().len() && s.drop_last()[i] != c {
            let i = choose|i: int| 0 <= i < s.drop_last().len() && s.drop_last()[i] != c;
            assert(s[i] != c);
        }
    } else if s.len() > 0 {
        assert(s[s.len() - 1] != c);
    }
}

} // verus!
