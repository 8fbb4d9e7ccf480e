//! Trees: preorder traversal of a tree of named nodes, and the sizes of a tree of files.
use vstd::prelude::*;
use crate::adaptors::{ItemSource, MyIterTools};
use crate::sorting::{sort_by, insert_by, total_preorder, sorted_by, lemma_insert_at, lemma_sort_by};
use crate::text::str_chars;

verus! {

/// A node of a tree.
#[derive(Debug)]
pub enum Node<T> {
    /// A node with children: its name and its child nodes.
    NonLeaf((T, Vec<Node<T>>)),
    /// A node without children: its name.
    Leaf(T),
}

/// The names of the tree below `n`, in preorder: the root first, then each subtree in turn.
pub open spec fn preorder<T>(n: Node<T>) -> Seq<T>
    decreases n, 0int,
{
    match n {
        Node::Leaf(x) => seq![x],
        Node::NonLeaf((x, ch)) => seq![x] + preorder_all(ch@),
    }
}

/// The preorders of the trees `ns`, one after the other.
pub open spec fn preorder_all<T>(ns: Seq<Node<T>>) -> Seq<T>
    decreases ns, 1int,
{
    if ns.len() == 0 {
        Seq::empty()
    } else {
        preorder(ns[0]) + preorder_all(ns.subrange(1, ns.len() as int))
    }
}

/// The preorders of two lists of trees, one after the other.
proof fn lemma_preorder_all_append<T>(a: Seq<Node<T>>, b: Seq<Node<T>>)
    ensures
        preorder_all(a + b) == preorder_all(a) + preorder_all(b),
    decreases a.len(),
{
    if a.len() == 0 {
        assert(a + b == b);
    } else {
        assert((a + b)[0] == a[0]);
        assert((a + b).subrange(1, (a + b).len() as int) == a.subrange(1, a.len() as int) + b);
        lemma_preorder_all_append(a.subrange(1, a.len() as int), b);
    }
}

/// A list of one tree.
proof fn lemma_preorder_all_one<T>(n: Node<T>)
    ensures
        preorder_all(seq![n]) == preorder(n),
{
    assert(seq![n].subrange(1, 1) == Seq::<Node<T>>::empty());
    assert(seq![n][0] == n);
    assert(preorder_all(Seq::<Node<T>>::empty()) == Seq::<T>::empty());
    assert(preorder(n) + Seq::<T>::empty() == preorder(n));
}

/// The trees still to visit, the next one last.
pub struct PreOrderIterator<T> {
    stack: Vec<Node<T>>,
}

impl<T> ItemSource for PreOrderIterator<T> {
    type Item = T;

    closed spec fn remaining(&self) -> Seq<T> {
        preorder_all(self.stack@.reverse())
    }

    closed spec fn valid(&self) -> bool {
        true
    }

    fn next(&mut self) -> (r: Option<T>) {
        let ghost before = self.stack@;
        match self.stack.pop() {
            None => None,
            Some(node) => {
                let ghost rest = self.stack@;
                proof {
                    assert(before == rest.push(node));
                    assert(before.reverse() == seq![node] + rest.reverse());
                    lemma_preorder_all_append(seq![node], rest.reverse());
                    lemma_preorder_all_one(node);
                }
                match node {
                    Node::NonLeaf((name, childs)) => {
                        let mut childs = childs;
                        let ghost all = childs@;
                        while childs.len() > 0
                            invariant
                                self.stack@ == rest + (all.subrange(childs@.len() as int, all.len() as int)).reverse(),
                                childs@.len() <= all.len(),
                                childs@ == all.take(childs@.len() as int),
                            decreases childs.len(),
                        {
                            let ghost k = childs@.len() - 1;
                            let c = childs.pop().unwrap();
                            self.stack.push(c);
                            assert(c == all[k]);
                            assert(all.subrange(k, all.len() as int) == seq![c] + all.subrange(
                                k + 1,
                                all.len() as int,
                            ));
                            assert(all.subrange(k, all.len() as int).reverse() == all.subrange(
                                k + 1,
                                all.len() as int,
                            ).reverse().push(c));
                            assert(childs@ == all.take(k));
                        }
                        proof {
                            assert(all.subrange(0, all.len() as int) == all);
                            assert(self.stack@.reverse() == all + rest.reverse());
                            lemma_preorder_all_append(all, rest.reverse());
                            assert(preorder(node) == seq![name] + preorder_all(all));
                        }
                        Some(name)
                    },
                    Node::Leaf(name) => {
                        Some(name)
                    },
                }
            },
        }
    }
}

/// Returns the names of the tree in preorder: the root first, then each subtree in turn.
pub fn traverse_preorder<T>(root: Node<T>) -> (r: Vec<T>)
    ensures
        r@ == preorder(root),
{
    let ghost n = root;
    let it = PreOrderIterator { stack: vec![root] };
    proof {
        assert(it.stack@.reverse() == seq![n]);
        lemma_preorder_all_one(n);
        assert(it.remaining() == preorder(n));
        assert(it.valid());
    }
    it.collect_vec()
}


/// A file.
#[derive(Debug)]
pub enum File {
    /// A directory: its name and the files under it. Its size is the sum of theirs.
    Directory(String, Vec<File>),
    /// Data: its name and its size.
    Data(String, usize),
}

/// The size of a file: for a directory, the sum of the sizes of the files under it.
pub open spec fn file_size(f: File) -> nat
    decreases f, 0int,
{
    match f {
        File::Data(_, size) => size as nat,
        File::Directory(_, ch) => sizes_sum(ch@),
    }
}

/// The sum of the sizes of `fs`.
pub open spec fn sizes_sum(fs: Seq<File>) -> nat
    decreases fs, 1int,
{
    if fs.len() == 0 {
        0
    } else {
        sizes_sum(fs.drop_last()) + file_size(fs.last())
    }
}

/// Every file at or under `f` with its size, each file after the files under it (the order in
/// which `du` lists them).
pub open spec fn summary(f: File) -> Seq<(Seq<char>, nat)>
    decreases f, 0int,
{
    match f {
        File::Data(name, size) => seq![(name@, size as nat)],
        File::Directory(name, ch) => summary_all(ch@) + seq![(name@, sizes_sum(ch@))],
    }
}

/// The summaries of `fs`, one after the other.
pub open spec fn summary_all(fs: Seq<File>) -> Seq<(Seq<char>, nat)>
    decreases fs, 1int,
{
    if fs.len() == 0 {
        Seq::empty()
    } else {
        summary_all(fs.drop_last()) + summary(fs.last())
    }
}

/// The name and size of an entry of the summary.
pub open spec fn entry_view(e: (&str, usize)) -> (Seq<char>, nat) {
    (e.0@, e.1 as nat)
}

/// The names and sizes of a list of entries.
pub open spec fn entry_views(v: Seq<(&str, usize)>) -> Seq<(Seq<char>, nat)> {
    v.map_values(|e: (&str, usize)| entry_view(e))
}

/// `a` comes no later than `b` in lexicographic order of characters (a prefix comes first).
pub open spec fn chars_le(a: Seq<char>, b: Seq<char>) -> bool
    decreases a.len(),
{
    if a.len() == 0 {
        true
    } else if b.len() == 0 {
        false
    } else if (a[0] as u32) < (b[0] as u32) {
        true
    } else if (a[0] as u32) > (b[0] as u32) {
        false
    } else {
        chars_le(a.drop_first(), b.drop_first())
    }
}

/// The order of `du | sort -h`: by size, then by name.
pub open spec fn du_le() -> spec_fn((Seq<char>, nat), (Seq<char>, nat)) -> bool {
    |a: (Seq<char>, nat), b: (Seq<char>, nat)| a.1 < b.1 || (a.1 == b.1 && chars_le(a.0, b.0))
}

proof fn lemma_chars_le_total(a: Seq<char>, b: Seq<char>)
    ensures
        chars_le(a, b) || chars_le(b, a),
    decreases a.len(),
{
    if a.len() > 0 && b.len() > 0 && (a[0] as u32) == (b[0] as u32) {
        lemma_chars_le_total(a.drop_first(), b.drop_first());
    }
}

proof fn lemma_chars_le_trans(a: Seq<char>, b: Seq<char>, c: Seq<char>)
    requires
        chars_le(a, b),
        chars_le(b, c),
    ensures
        chars_le(a, c),
    decreases a.len(),
{
    if a.len() > 0 && b.len() > 0 && c.len() > 0 && (a[0] as u32) == (b[0] as u32) && (b[0] as u32)
        == (c[0] as u32) {
        lemma_chars_le_trans(a.drop_first(), b.drop_first(), c.drop_first());
    }
}

/// The order of `du | sort -h` is a total preorder.
pub proof fn lemma_du_le_total()
    ensures
        total_preorder(du_le()),
{
    let le = du_le();
    assert forall|a: (Seq<char>, nat), b: (Seq<char>, nat)| #[trigger] le(a, b) || le(b, a) by {
        lemma_chars_le_total(a.0, b.0);
    }
    assert forall|a: (Seq<char>, nat), b: (Seq<char>, nat), c: (Seq<char>, nat)|
        #[trigger] le(a, b) && #[trigger] le(b, c) implies le(a, c) by {
        if a.1 == b.1 && b.1 == c.1 {
            lemma_chars_le_trans(a.0, b.0, c.0);
        }
    }
}

/// Whether `x` comes no later than `y` in lexicographic order of characters.
fn str_le(x: &str, y: &str) -> (r: bool)
    ensures
        r == chars_le(x@, y@),
{
    let a = str_chars(x);
    let b = str_chars(y);
    let mut i: usize = 0;
    assert(a@.skip(0) == a@ && b@.skip(0) == b@);
    while i < a.len() && i < b.len()
        invariant
            a@ == x@,
            b@ == y@,
            i <= a@.len(),
            i <= b@.len(),
            chars_le(x@, y@) == chars_le(a@.skip(i as int), b@.skip(i as int)),
        decreases a.len() - i,
    {
        let ca = a[i] as u32;
        let cb = b[i] as u32;
        assert(a@.skip(i as int)[0] == a@[i as int]);
        assert(b@.skip(i as int)[0] == b@[i as int]);
        if ca < cb {
            return true;
        }
        if ca > cb {
            return false;
        }
        assert(a@.skip(i as int).drop_first() == a@.skip(i + 1));
        assert(b@.skip(i as int).drop_first() == b@.skip(i + 1));
        i = i + 1;
    }
    if i == a.len() {
        assert(a@.skip(i as int).len() == 0);
        true
    } else {
        assert(b@.skip(i as int).len() == 0);
        false
    }
}

/// Whether entry `x` comes no later than entry `y`: by size, then by name.
fn entry_le(x: &(&str, usize), y: &(&str, usize)) -> (r: bool)
    ensures
        r == du_le()(entry_view(*x), entry_view(*y)),
{
    x.1 < y.1 || (x.1 == y.1 && str_le(x.0, y.0))
}

/// Sorts entries by size, then by name, keeping the order of equal entries.
fn sort_entries<'a>(v: Vec<(&'a str, usize)>) -> (r: Vec<(&'a str, usize)>)
    ensures
        entry_views(r@) == sort_by(entry_views(v@), du_le()),
{
    let ghost views = entry_views(v@);
    let mut r: Vec<(&'a str, usize)> = Vec::new();
    let n = v.len();
    let mut i: usize = 0;
    assert(views.take(0) == Seq::<(Seq<char>, nat)>::empty());
    assert(entry_views(r@) == Seq::<(Seq<char>, nat)>::empty());
    while i < n
        invariant
            n == v@.len(),
            views == entry_views(v@),
            i <= n,
            entry_views(r@) == sort_by(views.take(i as int), du_le()),
        decreases n - i,
    {
        let x = v[i];
        let m = r.len();
        let mut k: usize = 0;
        while k < m && !entry_le(&x, &r[k])
            invariant
                m == r@.len(),
                k <= m,
                forall|j: int| 0 <= j < k ==> !du_le()(entry_view(x), #[trigger] entry_views(r@)[j]),
            decreases m - k,
        {
            k = k + 1;
        }
        let ghost before = r@;
        proof {
            if k < m {
                assert(du_le()(entry_view(x), entry_views(r@)[k as int]));
            }
            lemma_insert_at(entry_views(r@), entry_view(x), du_le(), k as int);
            assert(views.take(i + 1).drop_last() == views.take(i as int));
            assert(views.take(i + 1).last() == entry_view(x));
        }
        r.insert(k, x);
        assert(entry_views(r@) =~= entry_views(before).take(k as int) + seq![entry_view(x)]
            + entry_views(before).skip(k as int));
        i = i + 1;
    }
    assert(views.take(n as int) == views);
    r
}

/// The sizes of the files of a list add up to at least the size of any one of them, and to
/// at least the sum of the sizes of the first ones.
proof fn lemma_sizes_sum_take(fs: Seq<File>, i: int)
    requires
        0 <= i <= fs.len(),
    ensures
        sizes_sum(fs.take(i)) <= sizes_sum(fs),
        i < fs.len() ==> sizes_sum(fs.take(i + 1)) == sizes_sum(fs.take(i)) + file_size(fs[i]),
        i < fs.len() ==> summary_all(fs.take(i + 1)) == summary_all(fs.take(i)) + summary(fs[i]),
    decreases fs.len() - i,
{
    if i < fs.len() {
        assert(fs.take(i + 1).drop_last() == fs.take(i));
        assert(fs.take(i + 1).last() == fs[i]);
        lemma_sizes_sum_take(fs, i + 1);
    } else {
        assert(fs.take(i) == fs);
    }
}

/// Appends the summary of `file` to `results` and returns the size of `file`.
fn calc_file_size<'a>(file: &'a File, results: &mut Vec<(&'a str, usize)>) -> (r: usize)
    requires
        file_size(*file) <= usize::MAX,
    ensures
        r == file_size(*file),
        entry_views(final(results)@) == entry_views(old(results)@) + summary(*file),
    decreases file,
{
    match file {
        File::Data(name, size) => {
            let ghost before = results@;
            results.push((name.as_str(), *size));
            assert(entry_views(results@) == entry_views(before) + seq![(name@, *size as nat)]);
            *size
        },
        File::Directory(name, childrens) => {
            let ghost fs = childrens@;
            let ghost start = entry_views(results@);
            let mut total: usize = 0;
            let n = childrens.len();
            let mut i: usize = 0;
            assert(fs.take(0) == Seq::<File>::empty());
            while i < n
                invariant
                    n == fs.len(),
                    fs == childrens@,
                    *file == File::Directory(*name, *childrens),
                    i <= n,
                    sizes_sum(fs) <= usize::MAX,
                    total == sizes_sum(fs.take(i as int)),
                    entry_views(results@) == start + summary_all(fs.take(i as int)),
                decreases n - i,
            {
                proof {
                    lemma_sizes_sum_take(fs, i as int);
                    lemma_sizes_sum_take(fs, i + 1);
                    assert(decreases_to!(*file => (*file)->Directory_1));
                    assert((*file)->Directory_1 == *childrens);
                    assert(decreases_to!(*childrens => childrens@));
                    assert(decreases_to!(childrens@ => childrens@[i as int]));
                }
                let s = calc_file_size(&childrens[i], results);
                total = total + s;
                i = i + 1;
            }
            assert(fs.take(n as int) == fs);
            let ghost before = results@;
            results.push((name.as_str(), total));
            assert(entry_views(results@) == entry_views(before) + seq![(name@, sizes_sum(fs))]);
            total
        },
    }
}

/// Lists every file at or under `root` with its size, in increasing order of size and, for
/// equal sizes, of name (the output of `du | sort -h`).
pub fn du_sort(root: &File) -> (r: Vec<(&str, usize)>)
    requires
        file_size(*root) <= usize::MAX,
    ensures
        entry_views(r@) == sort_by(summary(*root), du_le()),
{
    let mut results: Vec<(&str, usize)> = Vec::new();
    let _ = calc_file_size(root, &mut results);
    assert(entry_views(Seq::<(&str, usize)>::empty()) == Seq::<(Seq<char>, nat)>::empty());
    assert(Seq::<(Seq<char>, nat)>::empty() + summary(*root) == summary(*root));
    sort_entries(results)
}


/// The listing of `du_sort` is ordered by size and then by name, and holds every file at or
/// under the root with its size, each once.
pub proof fn lemma_du_sort_listing(root: File)
    ensures
        sorted_by(sort_by(summary(root), du_le()), du_le()),
        sort_by(summary(root), du_le()).to_multiset() == summary(root).to_multiset(),
{
    lemma_du_le_total();
    lemma_sort_by(summary(root), du_le());
}

} // verus!
