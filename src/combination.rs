//! Key combinations: a set of modifiers plus one symbolic key code, and their
//! canonical text form `super+alt+control+shift+Code`.

use vstd::prelude::*;

verus! {

/// The modifier set of a key combination.
#[derive(Clone, Copy, Debug, PartialEq, Eq, Structural)]
pub struct Modifiers {
    pub meta: bool,
    pub alt: bool,
    pub control: bool,
    pub shift: bool,
}

impl Modifiers {
    pub fn none() -> (r: Modifiers)
        ensures
            r == (Modifiers { meta: false, alt: false, control: false, shift: false }),
    {
        Modifiers { meta: false, alt: false, control: false, shift: false }
    }

    pub fn meta() -> (r: Modifiers)
        ensures
            r == (Modifiers { meta: true, alt: false, control: false, shift: false }),
    {
        Modifiers { meta: true, alt: false, control: false, shift: false }
    }

    pub fn alt() -> (r: Modifiers)
        ensures
            r == (Modifiers { meta: false, alt: true, control: false, shift: false }),
    {
        Modifiers { meta: false, alt: true, control: false, shift: false }
    }

    pub fn control() -> (r: Modifiers)
        ensures
            r == (Modifiers { meta: false, alt: false, control: true, shift: false }),
    {
        Modifiers { meta: false, alt: false, control: true, shift: false }
    }

    pub fn shift() -> (r: Modifiers)
        ensures
            r == (Modifiers { meta: false, alt: false, control: false, shift: true }),
    {
        Modifiers { meta: false, alt: false, control: false, shift: true }
    }

    /// The set holding the modifiers of both operands.
    pub fn union(self, other: Modifiers) -> (r: Modifiers)
        ensures
            r.meta == (self.meta || other.meta),
            r.alt == (self.alt || other.alt),
            r.control == (self.control || other.control),
            r.shift == (self.shift || other.shift),
    {
        Modifiers {
            meta: self.meta || other.meta,
            alt: self.alt || other.alt,
            control: self.control || other.control,
            shift: self.shift || other.shift,
        }
    }
}

/// Mathematical value of a key combination.
pub struct KeyView {
    pub modifiers: Modifiers,
    pub code: Seq<char>,
}

/// A key code is a non-empty symbolic name without `+`.
pub open spec fn valid_code(code: Seq<char>) -> bool {
    code.len() > 0 && forall|i: int| 0 <= i < code.len() ==> code[i] != '+'
}

pub open spec fn opt_text(present: bool, text: Seq<char>) -> Seq<char> {
    if present {
        text
    } else {
        Seq::empty()
    }
}

/// The modifier names in canonical order, each followed by `+`.
pub open spec fn modifier_prefix(m: Modifiers) -> Seq<char> {
    opt_text(m.meta, "super+"@) + opt_text(m.alt, "alt+"@) + opt_text(m.control, "control+"@)
        + opt_text(m.shift, "shift+"@)
}

/// Canonical text of a combination, e.g. `super+alt+KeyV`.
pub open spec fn canonical_text(k: KeyView) -> Seq<char> {
    modifier_prefix(k.modifiers) + k.code
}

/// Removes `p` from the front of `s` when it is there.
pub open spec fn strip(s: Seq<char>, p: Seq<char>) -> (bool, Seq<char>) {
    if p.is_prefix_of(s) {
        (true, s.subrange(p.len() as int, s.len() as int))
    } else {
        (false, s)
    }
}

/// Reading canonical text back: the modifier names in canonical order, then the code.
pub open spec fn parse_text(s: Seq<char>) -> Option<KeyView> {
    let (meta, s1) = strip(s, "super+"@);
    let (alt, s2) = strip(s1, "alt+"@);
    let (control, s3) = strip(s2, "control+"@);
    let (shift, code) = strip(s3, "shift+"@);
    if valid_code(code) {
        Some(
            KeyView {
                modifiers: Modifiers { meta, alt, control, shift },
                code,
            },
        )
    } else {
        None
    }
}

/// Stripping a prefix from the text that begins with it leaves the rest.
proof fn lemma_strip_present(p: Seq<char>, x: Seq<char>)
    ensures
        strip(p + x, p) == (true, x),
{
    assert((p + x).subrange(0, p.len() as int) =~= p);
    assert((p + x).subrange(p.len() as int, (p + x).len() as int) =~= x);
}

/// A prefix ending in `+` is not stripped from text whose character at `k` differs from it,
/// nor from a text that holds no `+` where the prefix has one.
proof fn lemma_strip_absent(p: Seq<char>, x: Seq<char>, k: int)
    requires
        0 <= k < p.len(),
        (k < x.len() && x[k] != p[k]) || (p[k] == '+' && forall|i: int|
            0 <= i < x.len() ==> x[i] != '+'),
    ensures
        strip(x, p) == (false, x),
{
    if p.is_prefix_of(x) {
        assert(x.subrange(0, p.len() as int)[k] == x[k]);
    }
}

/// The canonical text of a combination reads back as that combination.
pub proof fn lemma_text_round_trip(k: KeyView)
    requires
        valid_code(k.code),
    ensures
        parse_text(canonical_text(k)) == Some(k),
{
    let m = k.modifiers;
    let c = k.code;
    let t4 = opt_text(m.shift, "shift+"@) + c;
    let t3 = opt_text(m.control, "control+"@) + t4;
    let t2 = opt_text(m.alt, "alt+"@) + t3;
    let t1 = opt_text(m.meta, "super+"@) + t2;
    assert(canonical_text(k) =~= t1);
    reveal_strlit("super+");
    reveal_strlit("alt+");
    reveal_strlit("control+");
    reveal_strlit("shift+");
    // the text after each modifier either starts with a later modifier name or is the code
    if m.shift {
        lemma_strip_present("shift+"@, c);
        assert(t4[0] == 's');
    } else {
        assert(t4 =~= c);
        lemma_strip_absent("shift+"@, c, 5);
    }
    if m.control {
        lemma_strip_present("control+"@, t4);
        assert(t3[0] == 'c');
    } else {
        assert(t3 =~= t4);
        if m.shift {
            lemma_strip_absent("control+"@, t4, 0);
        } else {
            lemma_strip_absent("control+"@, t4, 7);
        }
    }
    if m.alt {
        lemma_strip_present("alt+"@, t3);
        assert(t2[0] == 'a');
    } else {
        assert(t2 =~= t3);
        if m.control || m.shift {
            lemma_strip_absent("alt+"@, t3, 0);
        } else {
            lemma_strip_absent("alt+"@, t3, 3);
        }
    }
    if m.meta {
        lemma_strip_present("super+"@, t2);
    } else {
        assert(t1 =~= t2);
        if m.alt || m.control {
            lemma_strip_absent("super+"@, t2, 0);
        } else if m.shift {
            assert(t2[1] == 'h');
            lemma_strip_absent("super+"@, t2, 1);
        } else {
            lemma_strip_absent("super+"@, t2, 5);
        }
    }
}

/// A modifier set plus one key code in its symbolic form (`KeyC`).
#[derive(Clone, Debug, PartialEq, Eq)]
pub struct KeyCombination {
    pub modifiers: Modifiers,
    pub code: String,
}

impl View for KeyCombination {
    type V = KeyView;

    open spec fn view(&self) -> KeyView {
        KeyView { modifiers: self.modifiers, code: self.code@ }
    }
}

impl KeyCombination {
    pub open spec fn wf(&self) -> bool {
        valid_code(self.code@)
    }

    pub fn new(modifiers: Modifiers, code: &str) -> (r: KeyCombination)
        requires
            valid_code(code@),
        ensures
            r@ == (KeyView { modifiers, code: code@ }),
            r.wf(),
    {
        KeyCombination { modifiers, code: code.to_string() }
    }

    /// A copy with the same modifiers and key code.
    pub fn cloned(&self) -> (r: KeyCombination)
        ensures
            r@ == self@,
    {
        KeyCombination { modifiers: self.modifiers, code: self.code.clone() }
    }

    /// Whether both combinations have the same modifier set and key code.
    pub fn same_as(&self, other: &KeyCombination) -> (r: bool)
        ensures
            r == (self@ == other@),
    {
        self.modifiers == other.modifiers && self.code == other.code
    }

    /// Canonical text of the combination.
    pub fn to_text(&self) -> (r: String)
        ensures
            r@ == canonical_text(self@),
    {
        let mut s = String::new();
        if self.modifiers.meta {
            s.append("super+");
        }
        if self.modifiers.alt {
            s.append("alt+");
        }
        if self.modifiers.control {
            s.append("control+");
        }
        if self.modifiers.shift {
            s.append("shift+");
        }
        s.append(self.code.as_str());
        proof {
            assert(s@ =~= canonical_text(self@));
        }
        s
    }

    /// Reads canonical text; `None` when what follows the modifiers is no key code.
    pub fn parse(text: &str) -> (r: Option<KeyCombination>)
        ensures
            match r {
                Some(k) => parse_text(text@) == Some(k@) && k.wf(),
                None => parse_text(text@) is None,
            },
    {
        let n = text.unicode_len();
        let (meta, i1) = strip_at(text, 0, "super+");
        let (alt, i2) = strip_at(text, i1, "alt+");
        let (control, i3) = strip_at(text, i2, "control+");
        let (shift, i4) = strip_at(text, i3, "shift+");
        let code = text.substring_char(i4, n);
        proof {
            let s = text@;
            assert(s.subrange(0, s.len() as int) =~= s);
            lemma_strip_tail(s, 0, "super+"@);
            lemma_strip_tail(s, i1 as int, "alt+"@);
            lemma_strip_tail(s, i2 as int, "control+"@);
            lemma_strip_tail(s, i3 as int, "shift+"@);
        }
        if is_code(code) {
            let k = KeyCombination {
                modifiers: Modifiers { meta, alt, control, shift },
                code: code.to_string(),
            };
            proof {
                assert(k@ == parse_text(text@)->0);
            }
            Some(k)
        } else {
            None
        }
    }
}

/// Stripping from the tail of `s` that starts at `i`.
proof fn lemma_strip_tail(s: Seq<char>, i: int, p: Seq<char>)
    requires
        0 <= i <= s.len(),
    ensures
        strip(s.subrange(i, s.len() as int), p) == (if p.is_prefix_of(s.subrange(i, s.len() as int)) {
            (true, s.subrange(i + p.len(), s.len() as int))
        } else {
            (false, s.subrange(i, s.len() as int))
        }),
{
    let t = s.subrange(i, s.len() as int);
    if p.is_prefix_of(t) {
        assert(t.subrange(p.len() as int, t.len() as int) =~= s.subrange(i + p.len(), s.len() as int));
    }
}

/// Whether `p` stands in `s` at position `i`; if so, the position after it.
fn strip_at(s: &str, i: usize, p: &str) -> (r: (bool, usize))
    requires
        i <= s@.len(),
    ensures
        r.0 == p@.is_prefix_of(s@.subrange(i as int, s@.len() as int)),
        r.0 ==> r.1 == i + p@.len(),
        !r.0 ==> r.1 == i,
{
    let n = s.unicode_len();
    let m = p.unicode_len();
    if m > n - i {
        return (false, i);
    }
    let mut j: usize = 0;
    while j < m
        invariant
            m == p@.len(),
            n == s@.len(),
            i + m <= n,
            j <= m,
            forall|k: int| 0 <= k < j ==> p@[k] == s@[i + k],
        decreases m - j,
    {
        if p.get_char(j) != s.get_char(i + j) {
            proof {
                assert(p@[j as int] != s@.subrange(i as int, s@.len() as int)[j as int]);
            }
            return (false, i);
        }
        j = j + 1;
    }
    proof {
        assert(p@ =~= s@.subrange(i as int, s@.len() as int).subrange(0, m as int));
    }
    (true, i + m)
}

/// Whether `s` is a valid key code.
fn is_code(s: &str) -> (r: bool)
    ensures
        r == valid_code(s@),
{
    let n = s.unicode_len();
    if n == 0 {
        return false;
    }
    let mut j: usize = 0;
    while j < n
        invariant
            n == s@.len(),
            j <= n,
            forall|k: int| 0 <= k < j ==> s@[k] != '+',
        decreases n - j,
    {
        if s.get_char(j) == '+' {
            return false;
        }
        j = j + 1;
    }
    true
}

} // verus!
