use crate::text::push_char;
use vstd::prelude::*;

verus! {

/// One step down a tree: an array position or an object member.
#[derive(Debug, PartialEq)]
pub enum Key {
    Idx(usize),
    Field(String),
}

/// The mathematical content of a [`Key`].
pub enum KeyView {
    Idx(nat),
    Field(Seq<char>),
}

impl View for Key {
    type V = KeyView;

    open spec fn view(&self) -> KeyView {
        match self {
            Key::Idx(i) => KeyView::Idx(*i as nat),
            Key::Field(s) => KeyView::Field(s@),
        }
    }
}

impl Key {
    /// A copy of the key.
    pub fn copy(&self) -> (r: Key)
        ensures
            r@ == self@,
    {
        match self {
            Key::Idx(i) => Key::Idx(*i),
            Key::Field(s) => Key::Field(s.clone()),
        }
    }
}

/// The location of a subtree: the keys followed from the root, in order.
/// The root is the empty path.
#[derive(Debug, PartialEq)]
pub struct Path {
    pub keys: Vec<Key>,
}

/// The content of each key, in order.
pub open spec fn keys_view(keys: Seq<Key>) -> Seq<KeyView> {
    keys.map_values(|k: Key| k@)
}

impl View for Path {
    type V = Seq<KeyView>;

    open spec fn view(&self) -> Seq<KeyView> {
        keys_view(self.keys@)
    }
}

/// The character of a decimal digit.
pub open spec fn digit_char(d: nat) -> char {
    if d == 0 {
        '0'
    } else if d == 1 {
        '1'
    } else if d == 2 {
        '2'
    } else if d == 3 {
        '3'
    } else if d == 4 {
        '4'
    } else if d == 5 {
        '5'
    } else if d == 6 {
        '6'
    } else if d == 7 {
        '7'
    } else if d == 8 {
        '8'
    } else {
        '9'
    }
}

/// The decimal digits of `n`, without leading zeros.
pub open spec fn decimal(n: nat) -> Seq<char>
    decreases n,
{
    if n < 10 {
        seq![digit_char(n)]
    } else {
        decimal(n / 10).push(digit_char(n % 10))
    }
}

/// A key as it shows in a path: `.name` for a member, `[i]` for a position.
pub open spec fn key_text(k: KeyView) -> Seq<char> {
    match k {
        KeyView::Idx(i) => seq!['['] + decimal(i) + seq![']'],
        KeyView::Field(name) => seq!['.'] + name,
    }
}

/// The keys' texts one after the other.
pub open spec fn keys_text(p: Seq<KeyView>) -> Seq<char>
    decreases p.len(),
{
    if p.len() == 0 {
        Seq::empty()
    } else {
        keys_text(p.drop_last()) + key_text(p.last())
    }
}

/// A path as it shows in a message: `(root)` for the root.
pub open spec fn path_text(p: Seq<KeyView>) -> Seq<char> {
    if p.len() == 0 {
        seq!['(', 'r', 'o', 'o', 't', ')']
    } else {
        keys_text(p)
    }
}

fn digit(d: usize) -> (c: char)
    requires
        d < 10,
    ensures
        c == digit_char(d as nat),
{
    if d == 0 {
        '0'
    } else if d == 1 {
        '1'
    } else if d == 2 {
        '2'
    } else if d == 3 {
        '3'
    } else if d == 4 {
        '4'
    } else if d == 5 {
        '5'
    } else if d == 6 {
        '6'
    } else if d == 7 {
        '7'
    } else if d == 8 {
        '8'
    } else {
        '9'
    }
}

fn push_decimal(s: &mut String, n: usize)
    ensures
        final(s)@ == old(s)@ + decimal(n as nat),
    decreases n,
{
    if n >= 10 {
        push_decimal(s, n / 10);
    }
    push_char(s, digit(n % 10));
    assert(final(s)@ =~= old(s)@ + decimal(n as nat));
}

fn push_key(s: &mut String, k: &Key)
    ensures
        final(s)@ == old(s)@ + key_text(k@),
{
    match k {
        Key::Idx(i) => {
            push_char(s, '[');
            push_decimal(s, *i);
            push_char(s, ']');
        },
        Key::Field(name) => {
            push_char(s, '.');
            s.append(name.as_str());
        },
    }
    assert(final(s)@ =~= old(s)@ + key_text(k@));
}

impl Path {
    /// The empty path.
    pub fn root() -> (r: Path)
        ensures
            r@ == Seq::<KeyView>::empty(),
    {
        let r = Path { keys: Vec::new() };
        assert(r@ =~= Seq::<KeyView>::empty());
        r
    }

    /// A copy of the path.
    pub fn copy(&self) -> (r: Path)
        ensures
            r@ == self@,
    {
        let mut keys: Vec<Key> = Vec::new();
        let mut i: usize = 0;
        while i < self.keys.len()
            invariant
                i <= self.keys@.len(),
                keys@.len() == i,
                forall|k: int| 0 <= k < i ==> #[trigger] keys@[k]@ == self.keys@[k]@,
            decreases self.keys.len() - i,
        {
            keys.push(self.keys[i].copy());
            i = i + 1;
        }
        let r = Path { keys };
        assert(r@ =~= self@);
        r
    }

    /// A new path one key longer; `self` is left as it was.
    pub fn append(&self, next: Key) -> (r: Path)
        ensures
            r@ == self@.push(next@),
    {
        let mut r = self.copy();
        r.keys.push(next);
        assert(r@ =~= self@.push(next@));
        r
    }

    /// The path as it shows in a message: `(root)`, or the keys' texts
    /// such as `.data.users[1].id`.
    pub fn render(&self) -> (r: String)
        ensures
            r@ == path_text(self@),
    {
        let mut s = String::new();
        if self.keys.len() == 0 {
            push_char(&mut s, '(');
            push_char(&mut s, 'r');
            push_char(&mut s, 'o');
            push_char(&mut s, 'o');
            push_char(&mut s, 't');
            push_char(&mut s, ')');
            assert(s@ =~= path_text(self@));
            return s;
        }
        let mut i: usize = 0;
        while i < self.keys.len()
            invariant
                i <= self.keys@.len(),
                s@ == keys_text(self@.subrange(0, i as int)),
            decreases self.keys.len() - i,
        {
            push_key(&mut s, &self.keys[i]);
            proof {
                assert(self@.subrange(0, i + 1).drop_last() =~= self@.subrange(0, i as int));
            }
            i = i + 1;
        }
        assert(self@.subrange(0, i as int) =~= self@);
        s
    }
}

} // verus!
