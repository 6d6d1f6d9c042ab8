//! Logical package names decoded from artifact file names.
//!
//! An artifact file name has the shape `<name>-<version>-<release>-<arch>.<ext>`.
//! The logical name is what is left once the three trailing fields are gone.
//! A name that carries fewer than three separators loses as many fields as
//! it has separators, so its logical name is its first field.
//!
//! Known limitation: fields are found by counting separators from the right,
//! so a version or release that itself holds a separator shifts the cut.

use vstd::prelude::*;
use vstd::string::*;

verus! {

/// The character that separates the fields of an artifact file name.
pub open spec fn is_separator(c: char) -> bool {
    c == '-'
}

/// Position of the last separator of `s`, if it has one.
pub open spec fn last_separator(s: Seq<char>) -> Option<int>
    decreases s.len(),
{
    if s.len() == 0 {
        None
    } else if is_separator(s.last()) {
        Some(s.len() - 1)
    } else {
        last_separator(s.drop_last())
    }
}

/// `s` without its last field and the separator in front of it; `s` itself
/// where it holds no separator.
pub open spec fn strip_field(s: Seq<char>) -> Seq<char> {
    match last_separator(s) {
        Some(i) => s.subrange(0, i),
        None => s,
    }
}

/// The logical name of the artifact file name `s`.
pub open spec fn logical_name(s: Seq<char>) -> Seq<char> {
    strip_field(strip_field(strip_field(s)))
}

/// `s` holds no separator.
pub open spec fn separator_free(s: Seq<char>) -> bool {
    forall|i: int| 0 <= i < s.len() ==> !is_separator(#[trigger] s[i])
}

/// What `last_separator` finds is a separator, and none stands behind it.
pub proof fn lemma_last_separator(s: Seq<char>)
    ensures
        match last_separator(s) {
            Some(i) => 0 <= i < s.len() && is_separator(s[i]) && separator_free(
                s.subrange(i + 1, s.len() as int),
            ),
            None => separator_free(s),
        },
    decreases s.len(),
{
    if s.len() > 0 && !is_separator(s.last()) {
        let t = s.drop_last();
        lemma_last_separator(t);
        match last_separator(t) {
            Some(i) => {
                let tail = s.subrange(i + 1, s.len() as int);
                let short = t.subrange(i + 1, t.len() as int);
                assert forall|k: int| 0 <= k < tail.len() implies !is_separator(
                    #[trigger] tail[k],
                ) by {
                    if k < short.len() {
                        assert(tail[k] == short[k]);
                    } else {
                        assert(tail[k] == s.last());
                    }
                }
            },
            None => {
                assert forall|k: int| 0 <= k < s.len() implies !is_separator(#[trigger] s[k]) by {
                    if k < t.len() {
                        assert(s[k] == t[k]);
                    }
                }
            },
        }
    } else if s.len() > 0 {
        assert(s.subrange(s.len() as int, s.len() as int) =~= Seq::<char>::empty());
    }
}

/// A field appended behind a separator is what `strip_field` takes away.
pub proof fn lemma_strip_appended_field(head: Seq<char>, field: Seq<char>)
    requires
        separator_free(field),
    ensures
        strip_field(head + seq!['-'] + field) == head,
    decreases field.len(),
{
    let s = head + seq!['-'] + field;
    if field.len() == 0 {
        assert(s.last() == '-');
        assert(s.subrange(0, s.len() - 1) =~= head);
    } else {
        assert(s.last() == field.last());
        assert(!is_separator(field.last()));
        assert(s.drop_last() =~= head + seq!['-'] + field.drop_last());
        lemma_strip_appended_field(head, field.drop_last());
        let t = head + seq!['-'] + field.drop_last();
        assert(last_separator(s) == last_separator(t));
        assert(last_separator(t) is Some) by {
            lemma_last_separator(t);
            if last_separator(t) is None {
                assert(t[head.len() as int] == '-');
            }
        }
        let i = last_separator(t)->Some_0;
        lemma_last_separator(t);
        assert(s.subrange(0, i) =~= t.subrange(0, i));
    }
}

/// Decoding a file name of four or more fields strips exactly the last
/// three: whatever stands in front of them, separators included, is the
/// logical name.
pub proof fn lemma_logical_name_strips_three_fields(
    name: Seq<char>,
    version: Seq<char>,
    release: Seq<char>,
    arch: Seq<char>,
)
    requires
        separator_free(version),
        separator_free(release),
        separator_free(arch),
    ensures
        logical_name(name + seq!['-'] + version + seq!['-'] + release + seq!['-'] + arch) == name,
{
    let a = name + seq!['-'] + version;
    let b = a + seq!['-'] + release;
    lemma_strip_appended_field(b, arch);
    lemma_strip_appended_field(a, release);
    lemma_strip_appended_field(name, version);
}

/// The logical name is a prefix of the file name.
pub proof fn lemma_logical_name_is_prefix(s: Seq<char>)
    ensures
        logical_name(s).len() <= s.len(),
        logical_name(s) == s.subrange(0, logical_name(s).len() as int),
{
    lemma_last_separator(s);
    let a = strip_field(s);
    lemma_last_separator(a);
    let b = strip_field(a);
    lemma_last_separator(b);
    let c = strip_field(b);
    assert(a =~= s.subrange(0, a.len() as int));
    assert(b =~= s.subrange(0, b.len() as int));
    assert(c =~= s.subrange(0, c.len() as int));
}

/// Separators of a prefix: adding one character either moves the last
/// separator to the new position or leaves it where it was.
proof fn lemma_last_separator_push(p: Seq<char>, c: char)
    ensures
        last_separator(p.push(c)) == if is_separator(c) {
            Some(p.len() as int)
        } else {
            last_separator(p)
        },
{
    assert(p.push(c).drop_last() =~= p);
}

/// The last separator of `p` in front of position `at`.
spec fn separators_before(p: Seq<char>, at: Option<usize>) -> Option<int> {
    match at {
        Some(i) => last_separator(p.take(i as int)),
        None => None,
    }
}

/// The logical name of `pkg`: the text in front of its last three fields.
pub fn decode_pkgname(pkg: &str) -> (name: String)
    ensures
        name@ == logical_name(pkg@),
{
    let total = pkg.unicode_len();
    let mut last: Option<usize> = None;
    let mut second: Option<usize> = None;
    let mut third: Option<usize> = None;
    let mut seen: usize = 0;
    for c in it: pkg.chars()
        invariant
            it.seq() == pkg@,
            seen == it.index(),
            total == pkg@.len(),
            match last {
                Some(i) => last_separator(pkg@.take(seen as int)) == Some(i as int),
                None => last_separator(pkg@.take(seen as int)) is None,
            },
            match second {
                Some(i) => separators_before(pkg@, last) == Some(i as int),
                None => separators_before(pkg@, last) is None,
            },
            match third {
                Some(i) => separators_before(pkg@, second) == Some(i as int),
                None => separators_before(pkg@, second) is None,
            },
    {
        proof {
            lemma_last_separator_push(pkg@.take(seen as int), c);
            assert(pkg@.take(seen as int).push(c) =~= pkg@.take(seen + 1));
        }
        if c == '-' {
            third = second;
            second = last;
            last = Some(seen);
            assert(pkg@.take(seen + 1).take(seen as int) =~= pkg@.take(seen as int));
        }
        seen = seen + 1;
    }
    proof {
        assert(pkg@.take(seen as int) =~= pkg@);
        lemma_last_separator(pkg@);
        if let Some(i) = last {
            lemma_last_separator(pkg@.take(i as int));
            if let Some(j) = second {
                assert(pkg@.take(i as int).take(j as int) =~= pkg@.take(j as int));
                lemma_last_separator(pkg@.take(j as int));
                if let Some(k) = third {
                    assert(pkg@.take(j as int).take(k as int) =~= pkg@.take(k as int));
                }
            }
        }
    }
    let cut = match third {
        Some(k) => k,
        None => match second {
            Some(j) => j,
            None => match last {
                Some(i) => i,
                None => total,
            },
        },
    };
    let head = pkg.substring_char(0, cut);
    proof {
        assert(pkg@.subrange(0, pkg@.len() as int) =~= pkg@);
    }
    head.to_owned()
}

/// The extension of a package file: file names of packages end in this,
/// dot included.
pub open spec fn package_suffix() -> Seq<char> {
    ".pkg.tar.zst"@
}

/// `name` is the file name of a package.
pub open spec fn is_package_file(name: Seq<char>) -> bool {
    package_suffix().is_suffix_of(name)
}

/// The package files among `entries`, in the order in which they stand there.
pub open spec fn package_files_of(entries: Seq<Seq<char>>) -> Seq<Seq<char>> {
    entries.filter(package_filter())
}

/// The test that `package_files_of` applies.
pub open spec fn package_filter() -> spec_fn(Seq<char>) -> bool {
    |name: Seq<char>| is_package_file(name)
}

/// The package files of a listing are its entries that are package files.
pub proof fn lemma_package_files_of(entries: Seq<Seq<char>>, file: Seq<char>)
    ensures
        package_files_of(entries).contains(file) <==> entries.contains(file) && is_package_file(
            file,
        ),
{
    let kept = package_files_of(entries);
    if kept.contains(file) {
        entries.lemma_filter_contains_rev(package_filter(), file);
        let i = choose|i: int| 0 <= i < kept.len() && kept[i] == file;
        entries.lemma_filter_pred(package_filter(), i);
    }
    if entries.contains(file) && is_package_file(file) {
        let i = choose|i: int| 0 <= i < entries.len() && entries[i] == file;
        entries.lemma_filter_contains(package_filter(), i);
    }
}

/// Whether `text` ends with `suffix`.
pub fn ends_with(text: &str, suffix: &str) -> (found: bool)
    ensures
        found == suffix@.is_suffix_of(text@),
{
    let n = text.unicode_len();
    let m = suffix.unicode_len();
    if m > n {
        return false;
    }
    let tail = text.substring_char(n - m, n).to_owned();
    let wanted = suffix.to_owned();
    tail == wanted
}

/// Keeps the package files of a directory listing, in their order.
pub fn package_files(entries: &Vec<String>) -> (kept: Vec<String>)
    ensures
        kept.deep_view() == package_files_of(entries.deep_view()),
{
    let mut kept: Vec<String> = Vec::new();
    let mut i: usize = 0;
    while i < entries.len()
        invariant
            i <= entries.len(),
            kept.deep_view() == package_files_of(entries.deep_view().take(i as int)),
        decreases entries.len() - i,
    {
        let ghost before = entries.deep_view().take(i as int);
        let ghost after = entries.deep_view().take(i + 1);
        proof {
            assert(after.drop_last() =~= before);
            assert(after.last() == entries[i as int]@);
            reveal(Seq::filter);
            assert(package_files_of(after) == if is_package_file(after.last()) {
                package_files_of(before).push(after.last())
            } else {
                package_files_of(before)
            });
        }
        if ends_with(entries[i].as_str(), ".pkg.tar.zst") {
            kept.push(entries[i].clone());
            assert(kept.deep_view() =~= package_files_of(before).push(entries[i as int]@));
        }
        i = i + 1;
    }
    proof {
        assert(entries.deep_view().take(i as int) =~= entries.deep_view());
    }
    kept
}

} // verus!
