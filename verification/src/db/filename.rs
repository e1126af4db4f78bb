//! The names of the files of a store: a directory, then a name that tells the kind of the
//! file and, for most kinds, its number.
use crate::error::Error;
use crate::storage::{
    do_write_string_to_file, remove_failed, removed, rename_failed, renamed, string_written,
    Storage,
};
use vstd::prelude::*;
use vstd::string::{StringExecFns, StringSliceAdditionalSpecFns, StrSliceExecFns};

verus! {

/// The kinds of files of a store.
#[derive(Debug, PartialEq, Eq, Structural, Clone, Copy)]
pub enum FileType {
    /// `*.log` files guarantee crash consistency.
    Log,
    /// The `LOCK` file, which only one user of the store may hold.
    Lock,
    /// `*.sst` files, the tables.
    Table,
    /// `MANIFEST-*` files, which record the tables in use.
    Manifest,
    /// The `CURRENT` file, which names the manifest in use.
    Current,
    /// `*.dbtmp` files.
    Temp,
    /// The `LOG` file of runtime messages.
    InfoLog,
    /// `LOG.old`, the runtime messages of the run before.
    OldInfoLog,
}

/// The character of a decimal digit.
pub open spec fn digit_char(d: nat) -> char {
    if d == 0 {
        '0'
    } else if d == 1 {
        '1'
    } else if d == 2 {
        '2'
    } else if d == 3 {
        '3'
    } else if d == 4 {
        '4'
    } else if d == 5 {
        '5'
    } else if d == 6 {
        '6'
    } else if d == 7 {
        '7'
    } else if d == 8 {
        '8'
    } else {
        '9'
    }
}

/// The decimal digits of `n`, most significant first, without leading zeros.
pub open spec fn digits(n: nat) -> Seq<char>
    decreases n,
{
    if n < 10 {
        seq![digit_char(n)]
    } else {
        digits(n / 10).push(digit_char(n % 10))
    }
}

/// The decimal digits of `n`, with zeros before them up to six digits.
pub open spec fn padded(n: nat) -> Seq<char> {
    let d = digits(n);
    if d.len() >= 6 {
        d
    } else {
        Seq::new((6 - d.len()) as nat, |i: int| '0') + d
    }
}

/// The name of a file of the kind `filetype` with the number `seq`, without its directory.
pub open spec fn spec_basename(filetype: FileType, seq: u64) -> Seq<char> {
    match filetype {
        FileType::Log => padded(seq as nat) + ".log"@,
        FileType::Lock => "LOCK"@,
        FileType::Table => padded(seq as nat) + ".sst"@,
        FileType::Manifest => "MANIFEST-"@ + padded(seq as nat),
        FileType::Current => "CURRENT"@,
        FileType::Temp => padded(seq as nat) + ".dbtmp"@,
        FileType::InfoLog => "LOG"@,
        FileType::OldInfoLog => "LOG.old"@,
    }
}

/// The path of the file `name` in the directory `dir`: `dir`, a slash unless `dir` is empty
/// or ends in one, and `name`.
pub open spec fn spec_join(dir: Seq<char>, name: Seq<char>) -> Seq<char> {
    if dir.len() == 0 || dir.last() == '/' {
        dir + name
    } else {
        dir.push('/') + name
    }
}

/// The path of a file of the kind `filetype` with the number `seq` in `dirname`.
pub open spec fn spec_filename(dirname: Seq<char>, filetype: FileType, seq: u64) -> Seq<char> {
    spec_join(dirname, spec_basename(filetype, seq))
}

fn digit_str(d: u64) -> (s: &'static str)
    requires
        d < 10,
    ensures
        s@ == seq![digit_char(d as nat)],
{
    proof {
        reveal_strlit("0");
        reveal_strlit("1");
        reveal_strlit("2");
        reveal_strlit("3");
        reveal_strlit("4");
        reveal_strlit("5");
        reveal_strlit("6");
        reveal_strlit("7");
        reveal_strlit("8");
        reveal_strlit("9");
    }
    let s = if d == 0 {
        "0"
    } else if d == 1 {
        "1"
    } else if d == 2 {
        "2"
    } else if d == 3 {
        "3"
    } else if d == 4 {
        "4"
    } else if d == 5 {
        "5"
    } else if d == 6 {
        "6"
    } else if d == 7 {
        "7"
    } else if d == 8 {
        "8"
    } else {
        "9"
    };
    assert(s@ =~= seq![digit_char(d as nat)]);
    s
}

/// Appends the decimal digits of `n` to `s`.
fn push_digits(s: &mut String, n: u64)
    ensures
        final(s)@ == old(s)@ + digits(n as nat),
    decreases n,
{
    if n >= 10 {
        push_digits(s, n / 10);
    }
    s.append(digit_str(n % 10));
    proof {
        if n >= 10 {
            assert(s@ =~= old(s)@ + digits(n as nat));
        } else {
            assert(s@ =~= old(s)@ + digits(n as nat));
        }
    }
}

/// The number of decimal digits of `n`.
fn count_digits(n: u64) -> (c: usize)
    ensures
        c == digits(n as nat).len(),
        1 <= c <= 20,
{
    let mut c: usize = 1;
    let mut m: u64 = n;
    assert(pow10(0) == 1);
    assert(m as nat * pow10(0) == n) by (nonlinear_arith)
        requires
            m == n,
            pow10(0) == 1,
    ;
    while m >= 10
        invariant
            1 <= c,
            digits(n as nat).len() == digits(m as nat).len() + c - 1,
            c <= 20,
            m as nat * pow10((c - 1) as nat) <= n,
        decreases m,
    {
        proof {
            assert(pow10(c as nat) == 10 * pow10((c - 1) as nat));
            assert((m / 10) as nat * pow10(c as nat) <= m as nat * pow10((c - 1) as nat))
                by (nonlinear_arith)
                requires
                    pow10(c as nat) == 10 * pow10((c - 1) as nat),
                    (m / 10) * 10 <= m,
            ;
            lemma_pow10_20();
            if c >= 20 {
                lemma_pow10_monotone(20, c as nat);
                assert((m / 10) as nat * pow10(c as nat) >= pow10(c as nat)) by (nonlinear_arith)
                    requires
                        m / 10 >= 1,
                ;
            }
        }
        m = m / 10;
        c = c + 1;
    }
    c
}

/// Ten to the power `n`.
pub open spec fn pow10(n: nat) -> nat
    decreases n,
{
    if n == 0 {
        1
    } else {
        10 * pow10((n - 1) as nat)
    }
}

proof fn lemma_pow10_20()
    ensures
        pow10(20) > u64::MAX,
{
    reveal_with_fuel(pow10, 21);
}

proof fn lemma_pow10_monotone(a: nat, b: nat)
    requires
        a <= b,
    ensures
        pow10(a) <= pow10(b),
    decreases b,
{
    if a < b {
        lemma_pow10_monotone(a, (b - 1) as nat);
    }
}

/// Appends the decimal digits of `n` to `s`, with zeros before them up to six digits.
fn push_padded(s: &mut String, n: u64)
    ensures
        final(s)@ == old(s)@ + padded(n as nat),
{
    let count: usize = count_digits(n);
    let mut zeros: usize = 0;
    proof {
        reveal_strlit("0");
    }
    while zeros + count < 6
        invariant
            count == digits(n as nat).len(),
            zeros + count <= 6 || zeros == 0,
            s@ == old(s)@ + Seq::new(zeros as nat, |i: int| '0'),
        decreases 6 - zeros,
    {
        s.append("0");
        zeros = zeros + 1;
        proof {
            reveal_strlit("0");
            assert(s@ =~= old(s)@ + Seq::new(zeros as nat, |i: int| '0'));
        }
    }
    let ghost before = s@;
    push_digits(s, n);
    proof {
        assert(s@ =~= old(s)@ + padded(n as nat));
    }
}

/// The path of a file of the kind `filetype` with the number `seq` in the directory
/// `dirname`. Kinds of which a store has one file take no number.
pub fn generate_filename(dirname: &str, filetype: FileType, seq: u64) -> (name: String)
    ensures
        name@ == spec_filename(dirname@, filetype, seq),
{
    let mut name = String::from_str(dirname);
    let len: usize = dirname.unicode_len();
    proof {
        reveal_strlit("/");
    }
    if len > 0 && dirname.get_char(len - 1) != '/' {
        name.append("/");
        assert(name@ =~= dirname@.push('/'));
    }
    let ghost dir = name@;
    match filetype {
        FileType::Log => {
            push_padded(&mut name, seq);
            name.append(".log");
            assert(name@ =~= dir + (padded(seq as nat) + ".log"@));
        },
        FileType::Lock => {
            name.append("LOCK");
        },
        FileType::Table => {
            push_padded(&mut name, seq);
            name.append(".sst");
            assert(name@ =~= dir + (padded(seq as nat) + ".sst"@));
        },
        FileType::Manifest => {
            name.append("MANIFEST-");
            push_padded(&mut name, seq);
            assert(name@ =~= dir + ("MANIFEST-"@ + padded(seq as nat)));
        },
        FileType::Current => {
            name.append("CURRENT");
        },
        FileType::Temp => {
            push_padded(&mut name, seq);
            name.append(".dbtmp");
            assert(name@ =~= dir + (padded(seq as nat) + ".dbtmp"@));
        },
        FileType::InfoLog => {
            name.append("LOG");
        },
        FileType::OldInfoLog => {
            name.append("LOG.old");
        },
    }
    name
}

/// What the `CURRENT` file of the store in `dirname` holds to name the manifest with the
/// number `seq`: the path of the manifest without the characters of `dirname` and the one
/// that follows them.
pub open spec fn spec_current_contents(dirname: Seq<char>, seq: u64) -> Seq<char> {
    spec_filename(dirname, FileType::Manifest, seq).skip(dirname.len() as int + 1)
}

/// What the `CURRENT` file of the store in `dirname` holds to name the manifest with the
/// number `seq`.
pub fn current_contents(dirname: &str, seq: u64) -> (data: String)
    ensures
        data@ == spec_current_contents(dirname@, seq),
{
    let mut name = String::from_str("MANIFEST-");
    push_padded(&mut name, seq);
    proof {
        reveal_strlit("MANIFEST-");
    }
    let len: usize = dirname.unicode_len();
    if len > 0 && dirname.get_char(len - 1) != '/' {
        proof {
            assert((dirname@.push('/') + name@).skip(dirname@.len() as int + 1) =~= name@);
        }
        name
    } else {
        // nothing stands between the directory and the name, and the name loses a character
        let total: usize = name.as_str().unicode_len();
        let rest = String::from_str(name.as_str().substring_char(1, total));
        proof {
            assert((dirname@ + name@).skip(dirname@.len() as int + 1) =~= name@.subrange(
                1,
                total as int,
            ));
        }
        rest
    }
}

/// What two steps come to of which the second makes up for the first: the error of the
/// second if it failed, and else what the first came to.
pub fn outcome(first: Result<(), Error>, then: Result<(), Error>) -> (r: Result<(), Error>)
    ensures
        r == (match then {
            Ok(_) => first,
            Err(e) => Err(e),
        }),
{
    match then {
        Ok(_) => first,
        Err(e) => Err(e),
    }
}

/// What making the `CURRENT` file of the store in `dir` name the manifest with the number
/// `seq` comes to, told from what its steps came to.
///
/// It succeeds where the name of the manifest was written to the temporary file with that
/// number and that file was given the name of the `CURRENT` file. It fails with the error
/// of the renaming where the file was written and could not be renamed; and where the file
/// could not be written, with the error of its removal if that failed too, and else with
/// the error of the writing.
pub open spec fn current_updated<S: Storage>(
    env: &S,
    dir: Seq<char>,
    seq: u64,
    r: Result<(), Error>,
) -> bool {
    let tmp = spec_filename(dir, FileType::Temp, seq);
    let current = spec_filename(dir, FileType::Current, 0);
    let contents = spec_current_contents(dir, seq);
    match r {
        Ok(_) => string_written(env, contents, tmp, true, r) && renamed(env, tmp, current),
        Err(e) => {
            ||| string_written(env, contents, tmp, true, Ok::<(), Error>(())) && rename_failed(
                env,
                tmp,
                current,
                e,
            )
            ||| string_written(env, contents, tmp, true, r) && removed(env, tmp)
            ||| remove_failed(env, tmp, e) && exists|first: Error| #[trigger]
                string_written(env, contents, tmp, true, Err::<(), Error>(first))
        },
    }
}

/// Makes the `CURRENT` file of the store in `dir` name the manifest with the number
/// `manifest_file_num`: writes the name to a temporary file and gives that file the name of
/// the `CURRENT` file.
///
/// Where the temporary file cannot be written it is removed, and the error is that of the
/// removal if that fails too, and else that of the writing. Where it cannot be renamed, the
/// error is that of the renaming.
pub fn update_current<S: Storage>(env: &S, dir: &str, manifest_file_num: u64) -> (r: Result<
    (),
    Error,
>)
    ensures
        current_updated(env, dir@, manifest_file_num, r),
{
    let manifest = current_contents(dir, manifest_file_num);
    let tmp = generate_filename(dir, FileType::Temp, manifest_file_num);
    let from = tmp.as_str();
    let written = do_write_string_to_file(env, manifest, from, true);
    let then = match &written {
        Ok(_) => {
            let current = generate_filename(dir, FileType::Current, 0);
            let to = current.as_str();
            let moved = env.rename(from, to);
            proof {
                assert(call_ensures(S::rename, (env, from, to), moved));
            }
            moved
        },
        Err(_) => {
            let gone = env.remove(from);
            proof {
                assert(call_ensures(S::remove, (env, from), gone));
            }
            gone
        },
    };
    outcome(written, then)
}

/// The bytes of a text of plain characters.
pub open spec fn text(s: Seq<char>) -> Seq<u8> {
    Seq::new(s.len(), |i: int| s[i] as u8)
}

/// The index of the last `b` in `s`, or -1 where there is none.
pub open spec fn last_index_of(s: Seq<u8>, b: u8) -> int
    decreases s.len(),
{
    if s.len() == 0 {
        -1
    } else if s.last() == b {
        s.len() - 1
    } else {
        last_index_of(s.drop_last(), b)
    }
}

/// How often `b` occurs in `s`.
pub open spec fn count_byte(s: Seq<u8>, b: u8) -> nat
    decreases s.len(),
{
    if s.len() == 0 {
        0
    } else {
        count_byte(s.drop_last(), b) + if s.last() == b {
            1nat
        } else {
            0nat
        }
    }
}

/// What ends `s` names no file: a slash, or a dot that follows a slash.
pub open spec fn ends_idly(s: Seq<u8>) -> bool {
    s.len() > 0 && (s.last() == 47 || (s.len() >= 2 && s.last() == 46 && s[s.len() - 2] == 47))
}

/// `s` without what names no file at its end: slashes, and dots that stand alone between
/// slashes or after the last one.
pub open spec fn trimmed(s: Seq<u8>) -> Seq<u8>
    decreases s.len(),
{
    if ends_idly(s) {
        trimmed(s.drop_last())
    } else {
        s
    }
}

/// The last component of a path: what follows its last slash, what names no file at its
/// end aside.
pub open spec fn base_name(path: Seq<u8>) -> Seq<u8> {
    let p = trimmed(path);
    p.skip(last_index_of(p, 47) + 1)
}

/// The name up to its last dot; the whole name where it has no dot but at its start.
pub open spec fn stem_of(name: Seq<u8>) -> Seq<u8> {
    let d = last_index_of(name, 46);
    if d > 0 {
        name.take(d)
    } else {
        name
    }
}

/// What follows the last dot of the name, where it has a dot that is not at its start.
pub open spec fn extension_of(name: Seq<u8>) -> Option<Seq<u8>> {
    let d = last_index_of(name, 46);
    if d > 0 {
        Some(name.skip(d + 1))
    } else {
        None
    }
}

/// The number that the decimal digits `s` stand for; `None` where `s` is empty or holds
/// anything but digits.
pub open spec fn decimal_value(s: Seq<u8>) -> Option<nat>
    decreases s.len(),
{
    if s.len() == 0 || !(48 <= s.last() <= 57) {
        None
    } else if s.len() == 1 {
        Some((s.last() - 48) as nat)
    } else {
        match decimal_value(s.drop_last()) {
            Some(v) => Some(v * 10 + (s.last() - 48) as nat),
            None => None,
        }
    }
}

/// The `u64` that `s` stands for: decimal digits, a plus sign before them or not, and a
/// value that a `u64` can hold.
pub open spec fn spec_parse_u64(s: Seq<u8>) -> Option<u64> {
    let t = if s.len() > 0 && s[0] == 43 {
        s.skip(1)
    } else {
        s
    };
    match decimal_value(t) {
        Some(v) => if v <= u64::MAX {
            Some(v as u64)
        } else {
            None
        },
        None => None,
    }
}

/// `s` starts with `prefix`.
pub open spec fn starts_with(s: Seq<u8>, prefix: Seq<u8>) -> bool {
    prefix.len() <= s.len() && s.take(prefix.len() as int) == prefix
}

/// The kind and the number of the file that a path names, if its last component is the
/// name of a file of a store.
///
/// What counts is the name up to its last dot: `CURRENT` and `LOCK` name those files; `LOG`
/// names the runtime messages if nothing follows, and those of the run before if `.old`
/// follows; a name that starts with `MANIFEST` and has one hyphen, followed by a number,
/// names a manifest; and a number names a log, a table or a temporary file by what follows
/// the dot: `log`, `sst` or `dbtmp`. Kinds of which a store has one file get the number 0.
pub open spec fn spec_parse_filename(path: Seq<u8>) -> Option<(FileType, u64)> {
    let name = base_name(path);
    if name.len() == 0 || name == text(".."@) {
        None
    } else {
        let stem = stem_of(name);
        if stem == text("CURRENT"@) {
            Some((FileType::Current, 0u64))
        } else if stem == text("LOCK"@) {
            Some((FileType::Lock, 0u64))
        } else if stem == text("LOG"@) {
            if name == text("LOG"@) {
                Some((FileType::InfoLog, 0u64))
            } else if name == text("LOG.old"@) {
                Some((FileType::OldInfoLog, 0u64))
            } else {
                None
            }
        } else if starts_with(stem, text("MANIFEST"@)) {
            if count_byte(stem, 45) != 1 {
                None
            } else {
                match spec_parse_u64(stem.skip(last_index_of(stem, 45) + 1)) {
                    Some(n) => Some((FileType::Manifest, n)),
                    None => None,
                }
            }
        } else {
            match spec_parse_u64(stem) {
                Some(n) => match extension_of(name) {
                    Some(e) => if e == text("log"@) {
                        Some((FileType::Log, n))
                    } else if e == text("sst"@) {
                        Some((FileType::Table, n))
                    } else if e == text("dbtmp"@) {
                        Some((FileType::Temp, n))
                    } else {
                        None
                    },
                    None => None,
                },
                None => None,
            }
        }
    }
}

/// The index of the last `b` in `s`.
fn rfind(s: &[u8], b: u8) -> (r: Option<usize>)
    ensures
        match r {
            Some(i) => last_index_of(s@, b) == i && i < s@.len(),
            None => last_index_of(s@, b) == -1,
        },
{
    let mut i: usize = s.len();
    assert(s@.take(i as int) =~= s@);
    while i > 0
        invariant
            i <= s@.len(),
            last_index_of(s@, b) == last_index_of(s@.take(i as int), b),
        decreases i,
    {
        proof {
            assert(s@.take(i as int).drop_last() =~= s@.take(i - 1));
            assert(s@.take(i as int).last() == s@[i - 1]);
        }
        if s[i - 1] == b {
            return Some(i - 1);
        }
        i = i - 1;
    }
    None
}

/// How often `b` occurs in `s`, as far as a `usize` counts.
fn count(s: &[u8], b: u8) -> (n: usize)
    ensures
        n == count_byte(s@, b),
{
    let mut n: usize = 0;
    let mut i: usize = 0;
    assert(s@.take(0) =~= Seq::<u8>::empty());
    while i < s.len()
        invariant
            i <= s@.len(),
            n <= i,
            n == count_byte(s@.take(i as int), b),
        decreases s@.len() - i,
    {
        proof {
            assert(s@.take(i + 1).drop_last() =~= s@.take(i as int));
            assert(s@.take(i + 1).last() == s@[i as int]);
        }
        if s[i] == b {
            n = n + 1;
        }
        i = i + 1;
    }
    assert(s@.take(i as int) =~= s@);
    n
}

/// The length of `s` without what names no file at its end.
fn trim_end(s: &[u8]) -> (n: usize)
    ensures
        n <= s@.len(),
        s@.take(n as int) == trimmed(s@),
{
    let mut n: usize = s.len();
    assert(s@.take(n as int) =~= s@);
    while n > 0 && (s[n - 1] == 47 || (n >= 2 && s[n - 1] == 46 && s[n - 2] == 47))
        invariant
            n <= s@.len(),
            trimmed(s@) == trimmed(s@.take(n as int)),
        decreases n,
    {
        proof {
            assert(s@.take(n as int).drop_last() =~= s@.take(n - 1));
            assert(s@.take(n as int).last() == s@[n - 1]);
            if n >= 2 {
                assert(s@.take(n as int)[n - 2] == s@[n - 2]);
            }
        }
        n = n - 1;
    }
    proof {
        if n > 0 {
            assert(s@.take(n as int).last() == s@[n - 1]);
        }
        if n >= 2 {
            assert(s@.take(n as int)[n - 2] == s@[n - 2]);
        }
    }
    n
}

/// The number that the decimal digits of `s` from `from` on stand for.
fn parse_decimal(s: &[u8], from: usize) -> (r: Option<u64>)
    requires
        from <= s@.len(),
    ensures
        r == match decimal_value(s@.skip(from as int)) {
            Some(v) => if v <= u64::MAX {
                Some(v as u64)
            } else {
                None
            },
            None => None,
        },
{
    let ghost t = s@.skip(from as int);
    let n: usize = s.len();
    if from == n {
        return None;
    }
    let mut acc: u64 = 0;
    let mut i: usize = from;
    assert(t.take(0) =~= Seq::<u8>::empty());
    while i < n
        invariant
            from <= i <= n,
            n == s@.len(),
            t == s@.skip(from as int),
            i > from ==> decimal_value(t.take(i - from)) == Some(acc as nat),
            i == from ==> acc == 0,
        decreases n - i,
    {
        let b: u8 = s[i];
        proof {
            let grown = t.take(i + 1 - from);
            assert(grown.drop_last() =~= t.take(i - from));
            assert(grown.last() == b);
            if !(48 <= b <= 57) {
                lemma_decimal_needs_digits(t, i - from);
            }
        }
        if b < 48 || b > 57 {
            return None;
        }
        let d: u64 = (b - 48) as u64;
        if acc > (u64::MAX - d) / 10 {
            proof {
                lemma_decimal_grows(t, i + 1 - from);
            }
            return None;
        }
        acc = acc * 10 + d;
        i = i + 1;
    }
    assert(t.take(n - from) =~= t);
    Some(acc)
}

/// A byte that has no last place in `s` does not occur in it.
proof fn lemma_count_without(s: Seq<u8>, b: u8)
    requires
        last_index_of(s, b) == -1,
    ensures
        count_byte(s, b) == 0,
    decreases s.len(),
{
    if s.len() > 0 {
        lemma_count_without(s.drop_last(), b);
    }
}

/// Digits have a value only if all of them are digits.
proof fn lemma_decimal_needs_digits(t: Seq<u8>, i: int)
    requires
        0 <= i < t.len(),
        !(48 <= t[i] <= 57),
    ensures
        decimal_value(t) is None,
    decreases t.len(),
{
    if i < t.len() - 1 {
        lemma_decimal_needs_digits(t.drop_last(), i);
    }
}

/// The value of digits is no less than the value of any of their beginnings.
proof fn lemma_decimal_grows(t: Seq<u8>, k: int)
    requires
        0 < k <= t.len(),
        decimal_value(t.take(k)) matches Some(v) && v > u64::MAX,
    ensures
        decimal_value(t) matches Some(v) ==> v > u64::MAX,
    decreases t.len(),
{
    if k < t.len() {
        assert(t.drop_last().take(k) =~= t.take(k));
        lemma_decimal_grows(t.drop_last(), k);
    } else {
        assert(t.take(k) =~= t);
    }
}

/// The `u64` that `s` stands for.
fn parse_u64(s: &[u8]) -> (r: Option<u64>)
    ensures
        r == spec_parse_u64(s@),
{
    if s.len() > 0 && s[0] == 43 {
        parse_decimal(s, 1)
    } else {
        assert(s@.skip(0) =~= s@);
        parse_decimal(s, 0)
    }
}

/// Whether `bytes` are the bytes of the plain text `literal`.
fn is_text(bytes: &[u8], literal: &str) -> (r: bool)
    requires
        vstd::string::is_ascii(literal),
    ensures
        r == (bytes@ == text(literal@)),
{
    broadcast use vstd::string::is_ascii_spec_bytes;

    let other = literal.as_bytes();
    assert(other@ =~= text(literal@));
    crate::util::coding::bytes_equal(bytes, other)
}

/// Whether `bytes` start with the bytes of the plain text `literal`.
fn has_prefix(bytes: &[u8], literal: &str) -> (r: bool)
    requires
        vstd::string::is_ascii(literal),
    ensures
        r == starts_with(bytes@, text(literal@)),
{
    broadcast use vstd::string::is_ascii_spec_bytes;

    let other = literal.as_bytes();
    assert(other@ =~= text(literal@));
    if other.len() > bytes.len() {
        return false;
    }
    let head = vstd::slice::slice_subrange(bytes, 0, other.len());
    crate::util::coding::bytes_equal(head, other)
}

/// The kind and the number of the file that `filename` names, if its last component is the
/// name of a file of a store.
pub fn parse_filename(filename: &str) -> (r: Option<(FileType, u64)>)
    ensures
        r == spec_parse_filename(filename.spec_bytes()),
{
    let path = filename.as_bytes();
    let end: usize = trim_end(path);
    let whole = vstd::slice::slice_subrange(path, 0, end);
    let start: usize = match rfind(whole, 47) {
        Some(i) => i + 1,
        None => 0,
    };
    let name = vstd::slice::slice_subrange(whole, start, end);
    proof {
        assert(name@ == base_name(path@));
        reveal_strlit("..");
        reveal_strlit("CURRENT");
        reveal_strlit("LOCK");
        reveal_strlit("LOG");
        reveal_strlit("LOG.old");
        reveal_strlit("MANIFEST");
        reveal_strlit("log");
        reveal_strlit("sst");
        reveal_strlit("dbtmp");
    }
    if name.len() == 0 || is_text(name, "..") {
        return None;
    }
    let dot = rfind(name, 46);
    let stem = match dot {
        Some(d) => if d > 0 {
            vstd::slice::slice_subrange(name, 0, d)
        } else {
            name
        },
        None => name,
    };
    proof {
        assert(stem@ =~= stem_of(name@));
    }
    if is_text(stem, "CURRENT") {
        return Some((FileType::Current, 0));
    }
    if is_text(stem, "LOCK") {
        return Some((FileType::Lock, 0));
    }
    if is_text(stem, "LOG") {
        if is_text(name, "LOG") {
            return Some((FileType::InfoLog, 0));
        }
        if is_text(name, "LOG.old") {
            return Some((FileType::OldInfoLog, 0));
        }
        return None;
    }
    if has_prefix(stem, "MANIFEST") {
        if count(stem, 45) != 1 {
            return None;
        }
        let dash: usize = match rfind(stem, 45) {
            Some(i) => i,
            None => {
                proof {
                    lemma_count_without(stem@, 45);
                }
                return None;
            },
        };
        let number = vstd::slice::slice_subrange(stem, dash + 1, stem.len());
        assert(number@ =~= stem@.skip(dash + 1));
        return match parse_u64(number) {
            Some(n) => Some((FileType::Manifest, n)),
            None => None,
        };
    }
    let n: u64 = match parse_u64(stem) {
        Some(n) => n,
        None => {
            return None;
        },
    };
    let extension = match dot {
        Some(d) => if d > 0 {
            vstd::slice::slice_subrange(name, d + 1, name.len())
        } else {
            return None;
        },
        None => {
            return None;
        },
    };
    proof {
        assert(extension@ =~= extension_of(name@)->Some_0);
    }
    if is_text(extension, "log") {
        Some((FileType::Log, n))
    } else if is_text(extension, "sst") {
        Some((FileType::Table, n))
    } else if is_text(extension, "dbtmp") {
        Some((FileType::Temp, n))
    } else {
        None
    }
}

} // verus!
