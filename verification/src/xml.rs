//! Escaping of text placed in XML attribute values and element content.
use vstd::prelude::*;

verus! {

/// The replacement text of one character: the five XML special characters become
/// entity references and every other character stands for itself.
pub open spec fn escape_char(c: char) -> Seq<char> {
    if c == '&' {
        seq!['&', 'a', 'm', 'p', ';']
    } else if c == '<' {
        seq!['&', 'l', 't', ';']
    } else if c == '>' {
        seq!['&', 'g', 't', ';']
    } else if c == '"' {
        seq!['&', 'q', 'u', 'o', 't', ';']
    } else if c == '\'' {
        seq!['&', 'a', 'p', 'o', 's', ';']
    } else {
        seq![c]
    }
}

/// The escaped form of a text: each character replaced by [`escape_char`].
pub open spec fn escape_text(s: Seq<char>) -> Seq<char>
    decreases s.len(),
{
    if s.len() == 0 {
        Seq::empty()
    } else {
        escape_char(s[0]) + escape_text(s.drop_first())
    }
}

/// Whether `s` begins with `prefix`.
pub open spec fn starts_with(s: Seq<char>, prefix: Seq<char>) -> bool {
    s.len() >= prefix.len() && s.subrange(0, prefix.len() as int) == prefix
}

/// Decodes the five entity references that [`escape_text`] produces; every other
/// character stands for itself.
pub open spec fn unescape_text(s: Seq<char>) -> Seq<char>
    decreases s.len(),
{
    if s.len() == 0 {
        Seq::empty()
    } else if starts_with(s, escape_char('&')) {
        seq!['&'] + unescape_text(s.skip(5))
    } else if starts_with(s, escape_char('<')) {
        seq!['<'] + unescape_text(s.skip(4))
    } else if starts_with(s, escape_char('>')) {
        seq!['>'] + unescape_text(s.skip(4))
    } else if starts_with(s, escape_char('"')) {
        seq!['"'] + unescape_text(s.skip(6))
    } else if starts_with(s, escape_char('\'')) {
        seq!['\''] + unescape_text(s.skip(6))
    } else {
        seq![s[0]] + unescape_text(s.drop_first())
    }
}

/// Escaping a text extended by one character extends its escaped form by that
/// character's replacement.
pub proof fn lemma_escape_push(s: Seq<char>, c: char)
    ensures
        escape_text(s.push(c)) == escape_text(s) + escape_char(c),
    decreases s.len(),
{
    if s.len() == 0 {
        assert(s.push(c).drop_first() =~= Seq::<char>::empty());
        assert(s.push(c)[0] == c);
        assert(escape_text(Seq::<char>::empty()) == Seq::<char>::empty());
        assert(escape_text(s) == Seq::<char>::empty());
        assert(escape_text(s.push(c)) =~= escape_char(c));
    } else {
        assert(s.push(c).drop_first() =~= s.drop_first().push(c));
        lemma_escape_push(s.drop_first(), c);
        assert(escape_text(s.push(c)) =~= escape_text(s) + escape_char(c));
    }
}

proof fn lemma_unescape_step(c: char, t: Seq<char>)
    ensures
        unescape_text(escape_char(c) + t) == seq![c] + unescape_text(t),
{
    let s = escape_char(c) + t;
    let e = escape_char(c);
    assert(s.skip(e.len() as int) =~= t);
    if c == '&' {
        assert(s.subrange(0, 5) =~= e);
    } else if c == '<' {
        assert(s.subrange(0, 4) =~= e);
        assert(s[1] == 'l');
    } else if c == '>' {
        assert(s.subrange(0, 4) =~= e);
        assert(s[1] == 'g');
    } else if c == '"' {
        assert(s.subrange(0, 6) =~= e);
        assert(s[1] == 'q');
    } else if c == '\'' {
        assert(s.subrange(0, 6) =~= e);
        assert(s[1] == 'a' && s[2] == 'p');
    } else {
        assert(s[0] == c);
        assert(s.drop_first() =~= t);
        assert(!starts_with(s, escape_char('&'))) by {
            if starts_with(s, escape_char('&')) {
                assert(s.subrange(0, 5)[0] == '&');
            }
        }
        assert(!starts_with(s, escape_char('<'))) by {
            if starts_with(s, escape_char('<')) {
                assert(s.subrange(0, 4)[0] == '&');
            }
        }
        assert(!starts_with(s, escape_char('>'))) by {
            if starts_with(s, escape_char('>')) {
                assert(s.subrange(0, 4)[0] == '&');
            }
        }
        assert(!starts_with(s, escape_char('"'))) by {
            if starts_with(s, escape_char('"')) {
                assert(s.subrange(0, 6)[0] == '&');
            }
        }
        assert(!starts_with(s, escape_char('\''))) by {
            if starts_with(s, escape_char('\'')) {
                assert(s.subrange(0, 6)[0] == '&');
            }
        }
    }
}

/// Escaping loses nothing: decoding the entity references of an escaped text gives
/// back the original text.
pub proof fn lemma_unescape_escape(s: Seq<char>)
    ensures
        unescape_text(escape_text(s)) == s,
    decreases s.len(),
{
    if s.len() == 0 {
        assert(unescape_text(Seq::<char>::empty()) == Seq::<char>::empty());
    } else {
        lemma_unescape_escape(s.drop_first());
        lemma_unescape_step(s[0], escape_text(s.drop_first()));
        assert(seq![s[0]] + s.drop_first() =~= s);
    }
}

/// Distinct texts have distinct escaped forms.
pub proof fn lemma_escape_injective(a: Seq<char>, b: Seq<char>)
    ensures
        escape_text(a) == escape_text(b) ==> a == b,
{
    lemma_unescape_escape(a);
    lemma_unescape_escape(b);
}

/// An escaped text holds none of `<`, `>`, `"` and `'`, so it can stand inside a
/// quoted attribute value or element content.
pub proof fn lemma_escape_has_no_markup(s: Seq<char>)
    ensures
        forall|i: int|
            0 <= i < escape_text(s).len() ==> {
                let c = #[trigger] escape_text(s)[i];
                c != '<' && c != '>' && c != '"' && c != '\''
            },
    decreases s.len(),
{
    if s.len() > 0 {
        lemma_escape_has_no_markup(s.drop_first());
        let head = escape_char(s[0]);
        let tail = escape_text(s.drop_first());
        assert forall|i: int| 0 <= i < escape_text(s).len() implies {
            let c = #[trigger] escape_text(s)[i];
            c != '<' && c != '>' && c != '"' && c != '\''
        } by {
            if i < head.len() {
                assert(escape_text(s)[i] == head[i]);
            } else {
                assert(escape_text(s)[i] == tail[i - head.len()]);
            }
        }
    }
}

/// Escapes the XML special characters `&`, `<`, `>`, `"` and `'` of `value`.
pub fn escape_xml(value: &str) -> (escaped: String)
    ensures
        escaped@ == escape_text(value@),
{
    let mut escaped = String::new();
    push_escaped(&mut escaped, value);
    escaped
}

/// Appends the escaped form of `value` to `out`.
pub fn push_escaped(out: &mut String, value: &str)
    ensures
        final(out)@ == old(out)@ + escape_text(value@),
{
    let ghost start = out@;
    let len = value.unicode_len();
    let mut i: usize = 0;
    proof {
        assert(value@.take(0) =~= Seq::<char>::empty());
        assert(out@ =~= start + escape_text(value@.take(0)));
    }
    while i < len
        invariant
            len == value@.len(),
            i <= len,
            out@ == start + escape_text(value@.take(i as int)),
        decreases len - i,
    {
        let c = value.get_char(i);
        proof {
            reveal_strlit("&amp;");
            reveal_strlit("&lt;");
            reveal_strlit("&gt;");
            reveal_strlit("&quot;");
            reveal_strlit("&apos;");
            assert(value@.take(i + 1) =~= value@.take(i as int).push(c));
            lemma_escape_push(value@.take(i as int), c);
        }
        if c == '&' {
            out.append("&amp;");
        } else if c == '<' {
            out.append("&lt;");
        } else if c == '>' {
            out.append("&gt;");
        } else if c == '"' {
            out.append("&quot;");
        } else if c == '\'' {
            out.append("&apos;");
        } else {
            crate::text::push_char(out, c);
        }
        proof {
            assert(out@ =~= start + escape_text(value@.take(i + 1)));
        }
        i = i + 1;
    }
    proof {
        assert(value@.take(len as int) =~= value@);
    }
}

} // verus!
