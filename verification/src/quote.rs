use vstd::prelude::*;

verus! {

/// `s` with every single quote tripled, as `yaml` writes it inside its quotes.
pub open spec fn yaml_escaped(s: Seq<char>) -> Seq<char>
    decreases s.len(),
{
    if s.len() == 0 {
        Seq::empty()
    } else {
        yaml_escaped(s.drop_last()) + if s.last() == '\'' {
            seq!['\'', '\'', '\'']
        } else {
            seq![s.last()]
        }
    }
}

/// `s` between single quotes, with each single quote of `s` written three times.
pub open spec fn yaml_quoted(s: Seq<char>) -> Seq<char> {
    seq!['\''] + yaml_escaped(s) + seq!['\'']
}

/// Quotes `s` for a YAML metadata value: single quotes around it, and every
/// single quote inside replaced by three of them.
pub fn yaml(s: &str) -> (r: String)
    ensures
        r@ == yaml_quoted(s@),
{
    let chars = crate::text::chars_of(s);
    let mut r = String::new();
    r.push('\'');
    let mut i: usize = 0;
    while i < chars.len()
        invariant
            chars@ == s@,
            i <= chars.len(),
            r@ == seq!['\''] + yaml_escaped(s@.take(i as int)),
        decreases chars.len() - i,
    {
        assert(s@.take(i + 1).drop_last() == s@.take(i as int));
        let c = chars[i];
        if c == '\'' {
            r.push('\'');
            r.push('\'');
            r.push('\'');
        } else {
            r.push(c);
        }
        i = i + 1;
    }
    assert(s@.take(chars.len() as int) == s@);
    r.push('\'');
    r
}

/// A quote in the input comes out as three quotes, and nothing else changes
/// length: the quoted text is two characters longer than the input plus two
/// for each quote of the input.
pub proof fn lemma_yaml_length(s: Seq<char>)
    ensures
        yaml_quoted(s).len() == s.len() + 2 + 2 * crate::text::count_char(s, '\''),
    decreases s.len(),
{
    reveal_with_fuel(crate::text::count_char, 1);
    if s.len() > 0 {
        lemma_yaml_length(s.drop_last());
    }
}

/// Text without a single quote is only wrapped in quotes.
pub proof fn lemma_yaml_plain(s: Seq<char>)
    requires
        forall|i: int| 0 <= i < s.len() ==> s[i] != '\'',
    ensures
        yaml_escaped(s) == s,
        yaml_quoted(s) == seq!['\''] + s + seq!['\''],
    decreases s.len(),
{
    if s.len() > 0 {
        lemma_yaml_plain(s.drop_last());
        assert(s.drop_last().push(s.last()) == s);
    } else {
        assert(yaml_escaped(s) == s);
    }
}


/// Reads escaped text back: three quotes at the end stand for one quote, any
/// other character for itself.
pub open spec fn yaml_unescaped(t: Seq<char>) -> Seq<char>
    decreases t.len(),
{
    if t.len() == 0 {
        Seq::empty()
    } else if t.last() == '\'' && t.len() >= 3 {
        yaml_unescaped(t.subrange(0, t.len() - 3)).push('\'')
    } else {
        yaml_unescaped(t.drop_last()).push(t.last())
    }
}

/// Reading escaped text back gives the text that was escaped.
pub proof fn lemma_yaml_unescape(s: Seq<char>)
    ensures
        yaml_unescaped(yaml_escaped(s)) == s,
    decreases s.len(),
{
    if s.len() > 0 {
        let prev = s.drop_last();
        lemma_yaml_unescape(prev);
        let e = yaml_escaped(prev);
        let t = yaml_escaped(s);
        if s.last() == '\'' {
            assert(t == e + seq!['\'', '\'', '\'']);
            assert(t.subrange(0, t.len() - 3) =~= e);
            assert(t.last() == '\'');
        } else {
            assert(t == e + seq![s.last()]);
            assert(t.drop_last() =~= e);
        }
        assert(prev.push(s.last()) =~= s);
    } else {
        assert(yaml_escaped(s) =~= Seq::<char>::empty());
    }
}

/// Quoting is one to one: two texts with the same quoted form are the same
/// text.
pub proof fn lemma_yaml_injective(a: Seq<char>, b: Seq<char>)
    requires
        yaml_quoted(a) == yaml_quoted(b),
    ensures
        a == b,
{
    let qa = yaml_quoted(a);
    let qb = yaml_quoted(b);
    assert(qa.subrange(1, qa.len() - 1) =~= yaml_escaped(a));
    assert(qb.subrange(1, qb.len() - 1) =~= yaml_escaped(b));
    lemma_yaml_unescape(a);
    lemma_yaml_unescape(b);
}

} // verus!
