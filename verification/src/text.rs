//! Small text utilities shared by the emitters.

use vstd::prelude::*;

verus! {

/// Whether two string slices hold the same characters.
pub fn str_eq(a: &str, b: &str) -> (r: bool)
    ensures
        r == (a@ == b@),
{
    let n = a.unicode_len();
    if n != b.unicode_len() {
        return false;
    }
    let mut i: usize = 0;
    while i < n
        invariant
            n == a@.len(),
            n == b@.len(),
            i <= n,
            forall|j: int| 0 <= j < i ==> a@[j] == b@[j],
        decreases n - i,
    {
        if a.get_char(i) != b.get_char(i) {
            return false;
        }
        i = i + 1;
    }
    assert(a@ =~= b@);
    true
}

/// Appends one character (std's `String::push`).
///
/// Claimed: the string afterwards is the old one followed by `c`.
#[verifier::external_body]
pub(crate) fn push_char(s: &mut String, c: char)
    ensures
        final(s)@ == old(s)@.push(c),
{
    s.push(c)
}

/// `n` levels of indentation, two spaces each.
pub open spec fn spaces(n: nat) -> Seq<char>
    decreases n,
{
    if n == 0 {
        Seq::empty()
    } else {
        spaces((n - 1) as nat) + "  "@
    }
}

/// The character sequences of a sequence of strings.
pub open spec fn views(v: Seq<String>) -> Seq<Seq<char>> {
    v.map_values(|s: String| s@)
}

/// `parts` with `sep` between each two neighbours (std's `join`).
pub open spec fn join(parts: Seq<Seq<char>>, sep: Seq<char>) -> Seq<char>
    decreases parts.len(),
{
    if parts.len() == 0 {
        Seq::empty()
    } else if parts.len() == 1 {
        parts[0]
    } else {
        join(parts.subrange(0, parts.len() - 1), sep) + sep + parts[parts.len() - 1]
    }
}

/// `s` between double quotes.
pub open spec fn quote(s: Seq<char>) -> Seq<char> {
    "\""@ + s + "\""@
}

/// `s` with each double quote preceded by a backslash.
pub open spec fn escape_quotes(s: Seq<char>) -> Seq<char>
    decreases s.len(),
{
    if s.len() == 0 {
        Seq::empty()
    } else {
        let c = s[s.len() - 1];
        escape_quotes(s.subrange(0, s.len() - 1)) + (if c == '"' {
            seq!['\\', '"']
        } else {
            seq![c]
        })
    }
}

/// A character that may start an identifier: an ASCII letter, `_` or `$`.
pub open spec fn ident_start(c: char) -> bool {
    ('a' <= c && c <= 'z') || ('A' <= c && c <= 'Z') || c == '_' || c == '$'
}

/// A character that may continue an identifier: also an ASCII digit.
pub open spec fn ident_char(c: char) -> bool {
    ident_start(c) || ('0' <= c && c <= '9')
}

/// A non-empty identifier of ASCII letters, digits, `_` and `$`, not starting with a digit.
pub open spec fn is_plain_ident(s: Seq<char>) -> bool {
    &&& s.len() > 0
    &&& ident_start(s[0])
    &&& forall|i: int| 0 <= i < s.len() ==> ident_char(#[trigger] s[i])
}

/// A property name as TypeScript and Zod write it: bare when it is a plain
/// identifier, else quoted with its inner quotes escaped.
pub open spec fn property_name(s: Seq<char>) -> Seq<char> {
    if is_plain_ident(s) {
        s
    } else {
        quote(escape_quotes(s))
    }
}

/// The indentation one level deeper than `pad`.
pub fn indent_more(pad: &String) -> (r: String)
    ensures
        r@ == pad@ + "  "@,
{
    let mut r = pad.clone();
    r.append("  ");
    r
}

/// Escaping works character by character: text without a double quote is
/// left alone, a double quote becomes a backslash and a double quote, and
/// the escape of two texts joined is the two escapes joined.
pub proof fn law_escape_quotes(a: Seq<char>, b: Seq<char>)
    ensures
        (forall|i: int| 0 <= i < a.len() ==> a[i] != '"') ==> escape_quotes(a) == a,
        escape_quotes(seq!['"']) == seq!['\\', '"'],
        escape_quotes(a + b) == escape_quotes(a) + escape_quotes(b),
    decreases b.len(),
{
    lemma_escape_plain(a);
    let q = seq!['"'];
    assert(q.subrange(0, 0) =~= Seq::<char>::empty());
    assert(q[q.len() - 1] == '"');
    assert(escape_quotes(q) == escape_quotes(q.subrange(0, 0)) + seq!['\\', '"']);
    assert(escape_quotes(q) =~= seq!['\\', '"']);
    if b.len() == 0 {
        assert(a + b =~= a);
        assert(escape_quotes(a) + escape_quotes(b) =~= escape_quotes(a));
    } else {
        let p = b.subrange(0, b.len() - 1);
        law_escape_quotes(a, p);
        let ab = a + b;
        assert(ab.subrange(0, ab.len() - 1) =~= a + p);
        assert(ab[ab.len() - 1] == b[b.len() - 1]);
    }
}

/// Text without a double quote escapes to itself.
pub proof fn lemma_escape_plain(a: Seq<char>)
    ensures
        (forall|i: int| 0 <= i < a.len() ==> a[i] != '"') ==> escape_quotes(a) == a,
    decreases a.len(),
{
    if a.len() > 0 && (forall|i: int| 0 <= i < a.len() ==> a[i] != '"') {
        let p = a.subrange(0, a.len() - 1);
        lemma_escape_plain(p);
        assert(a =~= p.push(a[a.len() - 1]));
        assert(escape_quotes(a) =~= p + seq![a[a.len() - 1]]);
    }
}

/// A property name is written bare exactly when it is a plain identifier
/// (ASCII letters, digits, `_` and `$`, not starting with a digit), else in
/// double quotes with its double quotes escaped.
pub proof fn law_property_name(s: Seq<char>)
    ensures
        (s.len() > 0 && ident_start(s[0]) && forall|i: int| 0 <= i < s.len() ==> ident_char(#[trigger] s[i]))
            ==> property_name(s) == s,
        !(s.len() > 0 && ident_start(s[0]) && forall|i: int| 0 <= i < s.len() ==> ident_char(#[trigger] s[i]))
            ==> property_name(s) == seq!['"'] + escape_quotes(s) + seq!['"'],
        s.len() == 0 ==> property_name(s) == seq!['"', '"'],
{
    reveal_strlit("\"");
    assert(seq!['"'] =~= "\""@);
    if s.len() == 0 {
        assert(escape_quotes(s) == Seq::<char>::empty());
        assert(seq!['"'] + escape_quotes(s) + seq!['"'] =~= seq!['"', '"']);
    }
}

/// `n` levels of indentation (std's `"  ".repeat(n)`).
pub fn repeat_spaces(n: usize) -> (r: String)
    ensures
        r@ == spaces(n as nat),
{
    let mut r = String::new();
    let mut i: usize = 0;
    assert(r@ =~= spaces(0));
    while i < n
        invariant
            i <= n,
            r@ == spaces(i as nat),
        decreases n - i,
    {
        r.append("  ");
        i = i + 1;
    }
    r
}

/// The first level of indentation.
pub fn one_level() -> (r: String)
    ensures
        r@ == spaces(1),
{
    let r = String::from_str("  ");
    assert(spaces(0) =~= Seq::<char>::empty());
    assert(spaces(1) =~= "  "@);
    r
}

/// `parts` joined by `sep`.
pub fn join_strings(parts: &Vec<String>, sep: &str) -> (r: String)
    ensures
        r@ == join(views(parts@), sep@),
{
    let mut r = String::new();
    let n = parts.len();
    let mut i: usize = 0;
    while i < n
        invariant
            n == parts@.len(),
            i <= n,
            r@ == join(views(parts@).subrange(0, i as int), sep@),
        decreases n - i,
    {
        let ghost pre = views(parts@).subrange(0, i as int);
        let ghost cur = views(parts@).subrange(0, i + 1);
        assert(cur.subrange(0, i as int) =~= pre);
        if i > 0 {
            r.append(sep);
            r.append(parts[i].as_str());
        } else {
            r.append(parts[i].as_str());
            assert(r@ =~= cur[0]);
        }
        i = i + 1;
    }
    assert(views(parts@).subrange(0, n as int) =~= views(parts@));
    r
}

/// `s` between double quotes.
pub fn quoted(s: &str) -> (r: String)
    ensures
        r@ == quote(s@),
{
    let mut r = String::from_str("\"");
    r.append(s);
    r.append("\"");
    r
}

/// `s` with each double quote preceded by a backslash (std's
/// `s.replace('"', "\\\"")`).
pub fn escaped(s: &str) -> (r: String)
    ensures
        r@ == escape_quotes(s@),
{
    let mut r = String::new();
    let n = s.unicode_len();
    let mut i: usize = 0;
    while i < n
        invariant
            n == s@.len(),
            i <= n,
            r@ == escape_quotes(s@.subrange(0, i as int)),
        decreases n - i,
    {
        let c = s.get_char(i);
        let ghost cur = s@.subrange(0, i + 1);
        assert(cur.subrange(0, i as int) =~= s@.subrange(0, i as int));
        if c == '"' {
            push_char(&mut r, '\\');
            push_char(&mut r, '"');
        } else {
            push_char(&mut r, c);
        }
        assert(r@ =~= escape_quotes(cur));
        i = i + 1;
    }
    assert(s@.subrange(0, n as int) =~= s@);
    r
}

/// Whether `name` is a plain identifier.
pub fn plain_ident(name: &str) -> (r: bool)
    ensures
        r == is_plain_ident(name@),
{
    let n = name.unicode_len();
    if n == 0 {
        return false;
    }
    let first = name.get_char(0);
    if !(('a' <= first && first <= 'z') || ('A' <= first && first <= 'Z') || first == '_' || first == '$') {
        return false;
    }
    let mut i: usize = 0;
    while i < n
        invariant
            n == name@.len(),
            i <= n,
            forall|j: int| 0 <= j < i ==> ident_char(#[trigger] name@[j]),
        decreases n - i,
    {
        let c = name.get_char(i);
        if !(('a' <= c && c <= 'z') || ('A' <= c && c <= 'Z') || c == '_' || c == '$' || ('0' <= c && c
            <= '9')) {
            return false;
        }
        i = i + 1;
    }
    true
}

} // verus!

verus! {

/// Each sequence between double quotes.
pub open spec fn quote_each(s: Seq<Seq<char>>) -> Seq<Seq<char>>
    decreases s.len(),
{
    if s.len() == 0 {
        Seq::empty()
    } else {
        quote_each(s.subrange(0, s.len() - 1)).push(quote(s[s.len() - 1]))
    }
}

/// Quoting each string keeps their number and order, and puts each between
/// double quotes.
pub proof fn law_quote_each(s: Seq<Seq<char>>)
    ensures
        quote_each(s).len() == s.len(),
        forall|i: int| 0 <= i < s.len() ==> #[trigger] quote_each(s)[i] == seq!['"'] + s[i] + seq!['"'],
    decreases s.len(),
{
    reveal_strlit("\"");
    assert(seq!['"'] =~= "\""@);
    if s.len() > 0 {
        let p = s.subrange(0, s.len() - 1);
        law_quote_each(p);
        assert forall|i: int| 0 <= i < s.len() implies #[trigger] quote_each(s)[i] == seq!['"'] + s[i] + seq!['"'] by {
            if i < s.len() - 1 {
                assert(p[i] == s[i]);
            }
        }
    }
}

/// Each string between double quotes.
pub fn quote_all(items: &Vec<String>) -> (r: Vec<String>)
    ensures
        views(r@) == quote_each(views(items@)),
{
    let mut r: Vec<String> = Vec::new();
    let n = items.len();
    let mut i: usize = 0;
    assert(views(r@) =~= quote_each(views(items@).subrange(0, 0)));
    while i < n
        invariant
            n == items@.len(),
            i <= n,
            views(r@) == quote_each(views(items@).subrange(0, i as int)),
        decreases n - i,
    {
        let q = quoted(items[i].as_str());
        let ghost cur = views(items@).subrange(0, i + 1);
        assert(cur.subrange(0, i as int) =~= views(items@).subrange(0, i as int));
        proof { lemma_views_push(r@, q); }
        r.push(q);
        i = i + 1;
    }
    assert(views(items@).subrange(0, n as int) =~= views(items@));
    r
}

/// Pushing a string adds its characters to the views.
pub proof fn lemma_views_push(v: Seq<String>, s: String)
    ensures
        views(v.push(s)) == views(v).push(s@),
{
    assert(views(v.push(s)) =~= views(v).push(s@));
}

} // verus!
