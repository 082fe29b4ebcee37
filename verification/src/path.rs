//! Paths of modules and their items.

use vstd::prelude::*;
use vstd::string::*;

use crate::trimmer::{copy_components, texts};

verus! {

/// Where something is in a source file.
#[derive(Clone, Copy, PartialEq, Eq, Structural, Debug)]
pub struct SourceSpan {
    pub source: u32,
    pub start: u32,
    pub end: u32,
}

impl SourceSpan {
    pub open spec fn unknown_span() -> SourceSpan {
        SourceSpan { source: u32::MAX, start: 0, end: 0 }
    }

    /// A span in no file.
    pub fn unknown() -> (span: SourceSpan)
        ensures
            span == SourceSpan::unknown_span(),
    {
        SourceSpan { source: u32::MAX, start: 0, end: 0 }
    }
}

/// An item of a module.
#[derive(Clone, Copy, PartialEq, Eq, Structural, Debug)]
pub struct GlobalItemIndex {
    pub module: u32,
    pub index: u32,
}

/// The path of a module or of an item in it.
pub struct Path {
    pub is_absolute: bool,
    pub components: Vec<String>,
}

/// The contents of a [`Path`].
pub ghost struct SymbolPath {
    pub is_absolute: bool,
    pub components: Seq<Seq<char>>,
}

/// The first `k` components with separators between them.
pub open spec fn separated(components: Seq<Seq<char>>, k: nat) -> Seq<char>
    decreases k,
{
    if k == 0 {
        Seq::empty()
    } else if k == 1 {
        components[0]
    } else {
        separated(components, (k - 1) as nat) + "::"@ + components[k - 1]
    }
}

impl SymbolPath {
    /// A path as text: components behind `::` if it is absolute, with `::` between them.
    pub open spec fn text(self) -> Seq<char> {
        if self.is_absolute {
            "::"@ + separated(self.components, self.components.len())
        } else {
            separated(self.components, self.components.len())
        }
    }

    /// The path without its last component.
    pub open spec fn parent(self) -> SymbolPath {
        SymbolPath { is_absolute: self.is_absolute, components: self.components.drop_last() }
    }

    /// The path with one more component.
    pub open spec fn join(self, name: Seq<char>) -> SymbolPath {
        SymbolPath { is_absolute: self.is_absolute, components: self.components.push(name) }
    }
}

impl Path {
    pub open spec fn view(&self) -> SymbolPath {
        SymbolPath { is_absolute: self.is_absolute, components: texts(self.components@) }
    }

    /// A copy of the path.
    pub fn copy(&self) -> (copy: Path)
        ensures
            copy@ == self@,
    {
        let mut components: Vec<String> = Vec::new();
        copy_components(&self.components, 0, &mut components);
        let copy = Path { is_absolute: self.is_absolute, components };
        assert(copy@.components =~= self@.components);
        copy
    }

    /// The path without its last component.
    pub fn parent(&self) -> (parent: Option<Path>)
        ensures
            match parent {
                Some(parent) => self@.components.len() > 0 && parent@ == self@.parent(),
                None => self@.components.len() == 0,
            },
    {
        let mut parent = self.copy();
        assert(texts(parent.components@).len() == texts(self.components@).len());
        match parent.components.pop() {
            None => None,
            Some(_) => {
                assert(parent@.components =~= self@.components.drop_last());
                Some(parent)
            },
        }
    }

    /// The path with one more component.
    pub fn join(self, name: String) -> (path: Path)
        ensures
            path@ == self@.join(name@),
    {
        let mut components = self.components;
        components.push(name);
        let path = Path { is_absolute: self.is_absolute, components };
        assert(path@.components =~= self@.components.push(name@));
        path
    }

    /// Tells whether two paths are the same.
    pub fn same_as(&self, other: &Path) -> (res: bool)
        ensures
            res == (self@ == other@),
    {
        if self.is_absolute != other.is_absolute {
            return false;
        }
        if self.components.len() != other.components.len() {
            assert(self@.components.len() != other@.components.len());
            return false;
        }
        let mut i: usize = 0;
        while i < self.components.len()
            invariant
                i <= self.components@.len() == other.components@.len(),
                forall|k: int| 0 <= k < i ==> #[trigger] self@.components[k] == other@.components[k],
            decreases self.components@.len() - i,
        {
            if self.components[i] != other.components[i] {
                assert(self@.components[i as int] != other@.components[i as int]);
                return false;
            }
            assert(self@.components[i as int] == other@.components[i as int]);
            i += 1;
        }
        assert(self@.components =~= other@.components);
        true
    }

    /// The path as text.
    pub fn to_string(&self) -> (text: String)
        ensures
            text@ == self@.text(),
    {
        let mut text = if self.is_absolute {
            String::from_str("::")
        } else {
            String::new()
        };
        let ghost head = text@;
        let mut i: usize = 0;
        assert(text@ =~= head + separated(self@.components, 0));
        while i < self.components.len()
            invariant
                i <= self.components@.len(),
                text@ == head + separated(self@.components, i as nat),
            decreases self.components@.len() - i,
        {
            let ghost now = text@;
            assert(self@.components[i as int] == self.components@[i as int]@);
            if i > 0 {
                text.append("::");
            }
            text.append(self.components[i].as_str());
            assert(text@ =~= head + separated(self@.components, (i + 1) as nat));
            i += 1;
        }
        if !self.is_absolute {
            assert(head =~= Seq::empty());
            assert(text@ =~= self@.text());
        }
        text
    }
}

/// Text `a` comes before text `b` in the order of dictionaries, compared from character `i` on.
pub open spec fn before_from(a: Seq<char>, b: Seq<char>, i: int) -> bool
    decreases a.len() - i,
{
    if i >= b.len() {
        false
    } else if i >= a.len() {
        true
    } else if a[i] != b[i] {
        a[i] < b[i]
    } else {
        before_from(a, b, i + 1)
    }
}

/// Text `a` comes before text `b` in the order of dictionaries.
pub open spec fn text_before(a: Seq<char>, b: Seq<char>) -> bool {
    before_from(a, b, 0)
}

/// Compares two texts.
pub fn is_before(a: &str, b: &str) -> (res: bool)
    ensures
        res == text_before(a@, b@),
{
    let n: usize = a.unicode_len();
    let m: usize = b.unicode_len();
    let mut i: usize = 0;
    while i < n && i < m
        invariant
            n == a@.len(),
            m == b@.len(),
            i <= n,
            i <= m,
            text_before(a@, b@) == before_from(a@, b@, i as int),
        decreases n - i,
    {
        let x = a.get_char(i);
        let y = b.get_char(i);
        if x != y {
            return x < y;
        }
        i += 1;
    }
    i >= n && i < m
}

/// Of two different texts, one comes before the other.
pub proof fn law_text_order_total(a: Seq<char>, b: Seq<char>)
    ensures
        a == b || text_before(a, b) || text_before(b, a),
        !(text_before(a, b) && text_before(b, a)),
        !text_before(a, a),
{
    lemma_total_from(a, b, 0);
    lemma_total_from(a, a, 0);
}

proof fn lemma_total_from(a: Seq<char>, b: Seq<char>, i: int)
    requires
        0 <= i <= a.len(),
        i <= b.len(),
        forall|k: int| 0 <= k < i ==> a[k] == b[k],
    ensures
        a == b || before_from(a, b, i) || before_from(b, a, i),
        !(before_from(a, b, i) && before_from(b, a, i)),
    decreases a.len() - i,
{
    if i < a.len() && i < b.len() && a[i] == b[i] {
        lemma_total_from(a, b, i + 1);
    } else if i == a.len() && i == b.len() {
        assert(a =~= b);
    }
}

/// The order of texts is transitive.
pub proof fn law_text_order_transitive(a: Seq<char>, b: Seq<char>, c: Seq<char>)
    requires
        text_before(a, b),
        text_before(b, c),
    ensures
        text_before(a, c),
{
    lemma_transitive_from(a, b, c, 0);
}

proof fn lemma_transitive_from(a: Seq<char>, b: Seq<char>, c: Seq<char>, i: int)
    requires
        0 <= i,
        before_from(a, b, i),
        before_from(b, c, i),
    ensures
        before_from(a, c, i),
    decreases a.len() - i,
{
    if i < a.len() && a[i] == b[i] && b[i] == c[i] {
        lemma_transitive_from(a, b, c, i + 1);
    }
}

/// What is joined to a path is its last part, below the path itself.
pub proof fn law_joined_paths_lie_below(path: SymbolPath, name: Seq<char>)
    ensures
        path.join(name).parent() == path,
        path.join(name).components.last() == name,
        path.join(name).is_absolute == path.is_absolute,
        path.components.len() > 0 ==> path.join(name).text() == path.text() + "::"@ + name,
{
    let joined = path.join(name);
    assert(joined.components.drop_last() =~= path.components);
    if path.components.len() > 0 {
        let n = path.components.len();
        lemma_separated_front(joined.components, path.components, n);
        let front = separated(path.components, n);
        assert("::"@ + (front + "::"@ + name) =~= "::"@ + front + "::"@ + name);
    }
}

proof fn lemma_separated_front(a: Seq<Seq<char>>, b: Seq<Seq<char>>, k: nat)
    requires
        k <= a.len(),
        k <= b.len(),
        forall|i: int| 0 <= i < k ==> a[i] == b[i],
    ensures
        separated(a, k) == separated(b, k),
    decreases k,
{
    if k > 1 {
        lemma_separated_front(a, b, (k - 1) as nat);
    }
}

} // verus!
