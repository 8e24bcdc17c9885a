//! Text utilities: equality, prefixes and suffixes, file stems,
//! path joining, markdown-to-HTML extension rewriting, ASCII
//! case-insensitive comparison and JSON string escaping.

use vstd::prelude::*;
use vstd::string::*;

verus! {

/// True iff `a` and `b` hold the same characters.
pub fn str_eq(a: &str, b: &str) -> (r: bool)
    ensures
        r == (a@ == b@),
{
    let sa = a.to_owned();
    let sb = b.to_owned();
    sa == sb
}

/// `p` is a prefix of `s`.
pub open spec fn has_prefix(s: Seq<char>, p: Seq<char>) -> bool {
    p.len() <= s.len() && s.subrange(0, p.len() as int) == p
}

/// True iff `s` starts with `p`.
pub fn str_has_prefix(s: &str, p: &str) -> (r: bool)
    ensures
        r == has_prefix(s@, p@),
{
    let n = p.unicode_len();
    let m = s.unicode_len();
    if n > m {
        return false;
    }
    let head = s.substring_char(0, n);
    str_eq(head, p)
}

/// `q` is a suffix of `s`.
pub open spec fn has_suffix(s: Seq<char>, q: Seq<char>) -> bool {
    q.len() <= s.len() && s.subrange(s.len() - q.len(), s.len() as int) == q
}

/// True iff `s` ends with `q`.
pub fn str_has_suffix(s: &str, q: &str) -> (r: bool)
    ensures
        r == has_suffix(s@, q@),
{
    let n = q.unicode_len();
    let m = s.unicode_len();
    if n > m {
        return false;
    }
    let tail = s.substring_char(m - n, m);
    str_eq(tail, q)
}

/// Position of the last `.` in `s`, if any.
pub open spec fn last_dot_pos(s: Seq<char>) -> Option<int>
    decreases s.len(),
{
    if s.len() == 0 {
        None
    } else if s[s.len() - 1] == '.' {
        Some(s.len() - 1)
    } else {
        last_dot_pos(s.drop_last())
    }
}

/// Where the last dot sits: inside the text, on a dot, with none
/// beyond it; where there is none, the text holds no dot at all.
pub proof fn lemma_last_dot_pos_range(s: Seq<char>)
    ensures
        match last_dot_pos(s) {
            Some(i) => 0 <= i < s.len() && s[i] == '.' && (forall|j: int|
                i < j < s.len() ==> s[j] != '.'),
            None => forall|j: int| 0 <= j < s.len() ==> s[j] != '.',
        },
    decreases s.len(),
{
    if s.len() > 0 && s[s.len() - 1] != '.' {
        lemma_last_dot_pos_range(s.drop_last());
        assert(forall|j: int| 0 <= j < s.len() - 1 ==> s.drop_last()[j] == s[j]);
        match last_dot_pos(s.drop_last()) {
            Some(i) => {
                assert(s.drop_last()[i] == s[i]);
            },
            None => {},
        }
    }
}

/// A dot at `k` with none beyond it is the last dot.
pub proof fn lemma_last_dot_at(s: Seq<char>, k: int)
    requires
        0 <= k < s.len(),
        s[k] == '.',
        forall|j: int| k < j < s.len() ==> s[j] != '.',
    ensures
        last_dot_pos(s) == Some(k),
    decreases s.len(),
{
    if k < s.len() - 1 {
        assert(forall|j: int| 0 <= j < s.len() - 1 ==> s.drop_last()[j] == s[j]);
        lemma_last_dot_at(s.drop_last(), k);
    }
}

/// A nonempty name has a nonempty stem.
pub proof fn lemma_stem_nonempty(s: Seq<char>)
    requires
        s.len() > 0,
    ensures
        stem_of(s).len() > 0,
{
    lemma_last_dot_pos_range(s);
}

/// The file stem of a name: everything before the last `.`, except
/// that a name whose only `.` is at the front (a hidden file) is its
/// own stem.
pub open spec fn stem_of(s: Seq<char>) -> Seq<char> {
    match last_dot_pos(s) {
        Some(i) => if i > 0 { s.subrange(0, i) } else { s },
        None => s,
    }
}

/// The stem of the full name, as a slice of it.
pub fn file_stem<'a>(name: &'a str) -> (r: &'a str)
    ensures
        r@ == stem_of(name@),
{
    let n = name.unicode_len();
    proof {
        assert(name@.subrange(0, n as int) =~= name@);
    }
    let mut i = n;
    while i > 0
        invariant
            i <= n,
            n == name@.len(),
            last_dot_pos(name@) == last_dot_pos(name@.subrange(0, i as int)),
            forall|j: int| i <= j < n ==> name@[j] != '.',
        decreases i,
    {
        let c = name.get_char(i - 1);
        if c == '.' {
            proof {
                assert(name@.subrange(0, i as int)[i - 1] == '.');
                assert(last_dot_pos(name@.subrange(0, i as int)) == Some(i - 1));
            }
            if i - 1 > 0 {
                let r = name.substring_char(0, i - 1);
                proof {
                    assert(r@ == stem_of(name@));
                }
                return r;
            } else {
                return name;
            }
        }
        proof {
            let pre = name@.subrange(0, i as int);
            assert(pre[i - 1] != '.');
            assert(pre.drop_last() =~= name@.subrange(0, i - 1));
        }
        i = i - 1;
    }
    proof {
        assert(name@.subrange(0, 0) =~= Seq::<char>::empty());
        assert(last_dot_pos(name@) == None::<int>);
    }
    name
}

/// Position of the last `/` in `s`, if any.
pub open spec fn last_slash_pos(s: Seq<char>) -> Option<int>
    decreases s.len(),
{
    if s.len() == 0 {
        None
    } else if s[s.len() - 1] == '/' {
        Some(s.len() - 1)
    } else {
        last_slash_pos(s.drop_last())
    }
}

/// The final path component of `s`: everything after the last `/`.
pub open spec fn basename_of(s: Seq<char>) -> Seq<char> {
    match last_slash_pos(s) {
        Some(i) => s.subrange(i + 1, s.len() as int),
        None => s,
    }
}

/// The final path component of `name`, as a slice of it.
pub fn base_name<'a>(name: &'a str) -> (r: &'a str)
    ensures
        r@ == basename_of(name@),
{
    let n = name.unicode_len();
    proof {
        assert(name@.subrange(0, n as int) =~= name@);
    }
    let mut i = n;
    while i > 0
        invariant
            i <= n,
            n == name@.len(),
            last_slash_pos(name@) == last_slash_pos(name@.subrange(0, i as int)),
            forall|j: int| i <= j < n ==> name@[j] != '/',
        decreases i,
    {
        let c = name.get_char(i - 1);
        if c == '/' {
            proof {
                assert(name@.subrange(0, i as int)[i - 1] == '/');
                assert(last_slash_pos(name@.subrange(0, i as int)) == Some(i - 1));
            }
            let r = name.substring_char(i, n);
            proof {
                assert(r@ =~= basename_of(name@));
            }
            return r;
        }
        proof {
            let pre = name@.subrange(0, i as int);
            assert(pre[i - 1] != '/');
            assert(pre.drop_last() =~= name@.subrange(0, i - 1));
        }
        i = i - 1;
    }
    proof {
        assert(name@.subrange(0, 0) =~= Seq::<char>::empty());
        assert(last_slash_pos(name@) == None::<int>);
    }
    name
}

/// Where the last separator sits: inside the text, on a separator,
/// with none beyond it; where there is none, the text holds no
/// separator at all.
pub proof fn lemma_last_slash_pos_range(s: Seq<char>)
    ensures
        match last_slash_pos(s) {
            Some(i) => 0 <= i < s.len() && s[i] == '/' && (forall|j: int|
                i < j < s.len() ==> s[j] != '/'),
            None => forall|j: int| 0 <= j < s.len() ==> s[j] != '/',
        },
    decreases s.len(),
{
    if s.len() > 0 && s[s.len() - 1] != '/' {
        lemma_last_slash_pos_range(s.drop_last());
        assert(forall|j: int| 0 <= j < s.len() - 1 ==> s.drop_last()[j] == s[j]);
        match last_slash_pos(s.drop_last()) {
            Some(i) => {
                assert(s.drop_last()[i] == s[i]);
            },
            None => {},
        }
    }
}

/// The final component never outgrows the path, and where the path
/// holds a separator it is strictly shorter.
pub proof fn lemma_basename_le(s: Seq<char>)
    ensures
        basename_of(s).len() <= s.len(),
        (exists|i: int| 0 <= i < s.len() && s[i] == '/') ==> basename_of(s).len() < s.len(),
{
    lemma_last_slash_pos_range(s);
}

proof fn lemma_last_slash_of_concat(x: Seq<char>, y: Seq<char>)
    requires
        x.len() > 0,
        x[x.len() - 1] == '/',
        forall|j: int| 0 <= j < y.len() ==> y[j] != '/',
    ensures
        last_slash_pos(x + y) == Some(x.len() - 1),
    decreases y.len(),
{
    if y.len() == 0 {
        assert(x + y =~= x);
    } else {
        assert((x + y)[(x + y).len() - 1] == y[y.len() - 1]);
        assert((x + y).drop_last() =~= x + y.drop_last());
        lemma_last_slash_of_concat(x, y.drop_last());
    }
}

/// Text without a separator appended after one keeps it as the last:
/// the final component of the whole is that text.
pub proof fn lemma_basename_of_concat(x: Seq<char>, y: Seq<char>)
    requires
        x.len() > 0,
        x[x.len() - 1] == '/',
        forall|j: int| 0 <= j < y.len() ==> y[j] != '/',
    ensures
        basename_of(x + y) == y,
{
    lemma_last_slash_of_concat(x, y);
    assert(basename_of(x + y) =~= y);
}

/// A text followed by the HTML extension has that text as its stem.
pub proof fn lemma_stem_of_html(t: Seq<char>)
    requires
        t.len() > 0,
    ensures
        stem_of(t + ".html"@) == t,
{
    reveal_strlit(".html");
    let s = t + ".html"@;
    assert(s[t.len() as int] == '.');
    assert(forall|j: int| t.len() < j < s.len() ==> s[j] != '.');
    lemma_last_dot_at(s, t.len() as int);
    assert(s.subrange(0, t.len() as int) =~= t);
}

/// `s` with its final component's extension replaced by `.html`: the
/// part up to the last separator is kept, and the component beyond it
/// is cut at its stem and given the HTML extension.
pub open spec fn to_html_name(s: Seq<char>) -> Seq<char> {
    s.subrange(0, s.len() - basename_of(s).len()) + stem_of(basename_of(s)) + ".html"@
}

/// Replaces the final component's extension with `.html`.
pub fn rewrite_to_html(s: &str) -> (r: String)
    ensures
        r@ == to_html_name(s@),
{
    let bn = base_name(s);
    let stem = file_stem(bn);
    let m = s.unicode_len();
    let k = bn.unicode_len();
    proof {
        lemma_basename_le(s@);
    }
    let mut out = s.substring_char(0, m - k).to_owned();
    out.append(stem);
    out.append(".html");
    proof {
        assert(out@ =~= to_html_name(s@));
    }
    out
}

/// `base` and `name` joined with a path separator.
pub open spec fn joined(base: Seq<char>, name: Seq<char>) -> Seq<char> {
    base + "/"@ + name
}

/// Joins `base` and `name` with `/`.
pub fn join_path(base: &str, name: &str) -> (r: String)
    ensures
        r@ == joined(base@, name@),
{
    let mut out = base.to_owned();
    out.append("/");
    out.append(name);
    out
}

/// The code point of `c` with an ASCII capital letter lowered.
pub open spec fn lower_code(c: char) -> u32 {
    if 65 <= c as u32 && c as u32 <= 90 {
        (c as u32 + 32) as u32
    } else {
        c as u32
    }
}

/// `a` and `b` are equal up to ASCII letter case.
pub open spec fn eq_icase(a: Seq<char>, b: Seq<char>) -> bool {
    a.len() == b.len() && forall|i: int| 0 <= i < a.len() ==> lower_code(a[i]) == lower_code(b[i])
}

/// True iff `a` equals `b` up to ASCII letter case.
pub fn str_eq_icase(a: &str, b: &str) -> (r: bool)
    ensures
        r == eq_icase(a@, b@),
{
    let n = a.unicode_len();
    if n != b.unicode_len() {
        return false;
    }
    let mut i: usize = 0;
    while i < n
        invariant
            i <= n,
            n == a@.len(),
            n == b@.len(),
            forall|j: int| 0 <= j < i ==> lower_code(a@[j]) == lower_code(b@[j]),
        decreases n - i,
    {
        let ca = a.get_char(i) as u32;
        let cb = b.get_char(i) as u32;
        let la = if 65 <= ca && ca <= 90 { ca + 32 } else { ca };
        let lb = if 65 <= cb && cb <= 90 { cb + 32 } else { cb };
        if la != lb {
            return false;
        }
        i = i + 1;
    }
    true
}

/// The indentation of a listing line: two spaces per level.
pub open spec fn indent(level: nat) -> Seq<char>
    decreases level,
{
    if level == 0 {
        Seq::empty()
    } else {
        indent((level - 1) as nat) + "  "@
    }
}

/// A prefix of `a` is a prefix of anything `a` starts.
pub proof fn lemma_prefix_extend(a: Seq<char>, b: Seq<char>, p: Seq<char>)
    requires
        has_prefix(a, p),
    ensures
        has_prefix(a + b, p),
{
    assert((a + b).subrange(0, p.len() as int) =~= a.subrange(0, p.len() as int));
}

/// A joined path starts with its base and the separator.
pub proof fn lemma_joined_prefix(base: Seq<char>, name: Seq<char>)
    ensures
        has_prefix(joined(base, name), base + "/"@),
{
    assert((base + "/"@).subrange(0, (base + "/"@).len() as int) =~= base + "/"@);
    lemma_prefix_extend(base + "/"@, name, base + "/"@);
}

/// A joined path keeps every prefix of its base's own prefixed form.
pub proof fn lemma_joined_keeps_prefix(base: Seq<char>, name: Seq<char>, p: Seq<char>)
    requires
        has_prefix(base, p),
    ensures
        has_prefix(joined(base, name), p),
{
    lemma_prefix_extend(base, "/"@, p);
    lemma_prefix_extend(base + "/"@, name, p);
}

/// `s` ends with the markdown extension `.md`.
pub open spec fn md_suffix(s: Seq<char>) -> bool {
    has_suffix(s, ".md"@)
}

/// `s` with a final `.md` replaced by `.html`; any other `s` unchanged.
pub open spec fn md_to_html(s: Seq<char>) -> Seq<char> {
    if md_suffix(s) {
        s.subrange(0, s.len() - 3) + ".html"@
    } else {
        s
    }
}

/// Replaces a final `.md` with `.html`; leaves any other name as it is.
pub fn rewrite_md_suffix(s: &str) -> (r: String)
    ensures
        r@ == md_to_html(s@),
{
    proof {
        reveal_strlit(".md");
    }
    if str_has_suffix(s, ".md") {
        let m = s.unicode_len();
        let head = s.substring_char(0, m - 3);
        let mut out = head.to_owned();
        out.append(".html");
        out
    } else {
        s.to_owned()
    }
}

/// Extension rewriting is a fixed point on any name that does not end
/// in the markdown extension, and on a name that does, exactly that
/// suffix becomes `.html`: every other character stands unchanged.
pub proof fn lemma_rewrite_fixed_point(s: Seq<char>)
    ensures
        !md_suffix(s) ==> md_to_html(s) == s,
        md_suffix(s) ==> md_to_html(s) == s.subrange(0, s.len() - 3) + ".html"@,
{
}

/// A rewritten name never ends in the markdown extension.
pub proof fn lemma_md_to_html_no_md(s: Seq<char>)
    ensures
        !md_suffix(md_to_html(s)),
{
    reveal_strlit(".md");
    reveal_strlit(".html");
    if md_suffix(s) {
        let t = md_to_html(s);
        assert(t.len() == s.len() + 2);
        assert(t[t.len() - 3] == ".html"@[2]);
        if md_suffix(t) {
            assert(t.subrange(t.len() - 3, t.len() as int)[0] == t[t.len() - 3]);
            assert(false);
        }
    }
}

/// Rewriting twice is rewriting once.
pub proof fn lemma_rewrite_idempotent(s: Seq<char>)
    ensures
        md_to_html(md_to_html(s)) == md_to_html(s),
{
    lemma_md_to_html_no_md(s);
}

/// The lower-case hex digit for a nibble.
pub open spec fn hex_digit(n: u32) -> char {
    if n == 0 { '0' }
    else if n == 1 { '1' }
    else if n == 2 { '2' }
    else if n == 3 { '3' }
    else if n == 4 { '4' }
    else if n == 5 { '5' }
    else if n == 6 { '6' }
    else if n == 7 { '7' }
    else if n == 8 { '8' }
    else if n == 9 { '9' }
    else if n == 10 { 'a' }
    else if n == 11 { 'b' }
    else if n == 12 { 'c' }
    else if n == 13 { 'd' }
    else if n == 14 { 'e' }
    else { 'f' }
}

fn hex_str(n: u32) -> (r: &'static str)
    requires
        n < 16,
    ensures
        r@ == seq![hex_digit(n)],
{
    if n == 0 { proof { reveal_strlit("0"); assert("0"@ =~= seq![hex_digit(n)]); } "0" }
    else if n == 1 { proof { reveal_strlit("1"); assert("1"@ =~= seq![hex_digit(n)]); } "1" }
    else if n == 2 { proof { reveal_strlit("2"); assert("2"@ =~= seq![hex_digit(n)]); } "2" }
    else if n == 3 { proof { reveal_strlit("3"); assert("3"@ =~= seq![hex_digit(n)]); } "3" }
    else if n == 4 { proof { reveal_strlit("4"); assert("4"@ =~= seq![hex_digit(n)]); } "4" }
    else if n == 5 { proof { reveal_strlit("5"); assert("5"@ =~= seq![hex_digit(n)]); } "5" }
    else if n == 6 { proof { reveal_strlit("6"); assert("6"@ =~= seq![hex_digit(n)]); } "6" }
    else if n == 7 { proof { reveal_strlit("7"); assert("7"@ =~= seq![hex_digit(n)]); } "7" }
    else if n == 8 { proof { reveal_strlit("8"); assert("8"@ =~= seq![hex_digit(n)]); } "8" }
    else if n == 9 { proof { reveal_strlit("9"); assert("9"@ =~= seq![hex_digit(n)]); } "9" }
    else if n == 10 { proof { reveal_strlit("a"); assert("a"@ =~= seq![hex_digit(n)]); } "a" }
    else if n == 11 { proof { reveal_strlit("b"); assert("b"@ =~= seq![hex_digit(n)]); } "b" }
    else if n == 12 { proof { reveal_strlit("c"); assert("c"@ =~= seq![hex_digit(n)]); } "c" }
    else if n == 13 { proof { reveal_strlit("d"); assert("d"@ =~= seq![hex_digit(n)]); } "d" }
    else if n == 14 { proof { reveal_strlit("e"); assert("e"@ =~= seq![hex_digit(n)]); } "e" }
    else { proof { reveal_strlit("f"); assert("f"@ =~= seq![hex_digit(n)]); } "f" }
}

/// How one character is written inside a JSON string literal: quote
/// and backslash get a backslash escape, control characters a
/// `\u00..` escape, and every other character stands as itself.
pub open spec fn esc_char(c: char) -> Seq<char> {
    if c == '"' {
        "\\\""@
    } else if c == '\\' {
        "\\\\"@
    } else if (c as u32) < 32 {
        "\\u00"@ + seq![hex_digit((c as u32) / 16), hex_digit((c as u32) % 16)]
    } else {
        seq![c]
    }
}

/// The body of a JSON string literal holding the text `s`.
pub open spec fn json_escape(s: Seq<char>) -> Seq<char>
    decreases s.len(),
{
    if s.len() == 0 {
        Seq::empty()
    } else {
        esc_char(s[0]) + json_escape(s.drop_first())
    }
}

proof fn lemma_json_escape_snoc(s: Seq<char>, c: char)
    ensures
        json_escape(s.push(c)) == json_escape(s) + esc_char(c),
    decreases s.len(),
{
    if s.len() == 0 {
        assert(s.push(c).len() == 1);
        assert(s.push(c)[0] == c);
        assert(s.push(c).drop_first() =~= Seq::<char>::empty());
        assert(json_escape(s.push(c)) == esc_char(c) + json_escape(Seq::<char>::empty()));
        assert(json_escape(s.push(c)) =~= json_escape(s) + esc_char(c));
    } else {
        lemma_json_escape_snoc(s.drop_first(), c);
        assert(s.push(c).drop_first() =~= s.drop_first().push(c));
        assert(s.push(c)[0] == s[0]);
        assert(json_escape(s.push(c)) == esc_char(s[0]) + json_escape(s.drop_first().push(c)));
        assert(json_escape(s.push(c)) =~= json_escape(s) + esc_char(c));
    }
}

/// Escapes `s` for use inside a JSON string literal.
pub fn json_escape_str(s: &str) -> (r: String)
    ensures
        r@ == json_escape(s@),
{
    let n = s.unicode_len();
    let mut out = String::new();
    let mut i: usize = 0;
    while i < n
        invariant
            i <= n,
            n == s@.len(),
            out@ == json_escape(s@.subrange(0, i as int)),
        decreases n - i,
    {
        let c = s.get_char(i);
        if c == '"' {
            out.append("\\\"");
        } else if c == '\\' {
            out.append("\\\\");
        } else if (c as u32) < 32 {
            out.append("\\u00");
            out.append(hex_str((c as u32) / 16));
            out.append(hex_str((c as u32) % 16));
        } else {
            out.append(s.substring_char(i, i + 1));
            proof {
                assert(s@.subrange(i as int, i + 1 as int) =~= seq![s@[i as int]]);
            }
        }
        proof {
            lemma_json_escape_snoc(s@.subrange(0, i as int), s@[i as int]);
            assert(s@.subrange(0, i + 1 as int) =~= s@.subrange(0, i as int).push(s@[i as int]));
            assert(out@ =~= json_escape(s@.subrange(0, i + 1 as int)));
        }
        i = i + 1;
    }
    proof {
        assert(s@.subrange(0, n as int) =~= s@);
    }
    out
}

} // verus!
