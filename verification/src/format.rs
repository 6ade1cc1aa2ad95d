//! Formatting the items of an iterator into one string, with a separator between items.
use vstd::prelude::*;
use vstd::string::StringExecFns;
use crate::Itertools;
use crate::free::joined;

verus! {

/// How an item is written.
pub trait FormatFn<T> {
    spec fn spec_format(&self, x: T) -> Seq<char>;

    fn format(&self, x: T) -> (s: String)
        ensures
            s@ == self.spec_format(x),
    ;
}

/// The formatted items of `s`.
pub open spec fn formatted<T, F: FormatFn<T>>(s: Seq<T>, f: F) -> Seq<Seq<char>> {
    s.map_values(|x: T| f.spec_format(x))
}

/// The strings of `s`, as character sequences.
pub open spec fn string_views(s: Seq<String>) -> Seq<Seq<char>> {
    s.map_values(|x: String| x@)
}

/// The items of an iterator, each written by a format function, separated by `sep`.
pub struct Format<'a, I, F> {
    sep: &'a str,
    iter: I,
    f: F,
}

/// The strings of an iterator, separated by `sep`.
pub struct FormatDefault<'a, I> {
    sep: &'a str,
    iter: I,
}

/// Create a new `Format`.
pub fn new_format<'a, I: Itertools, F: FormatFn<I::Item>>(iter: I, separator: &'a str, f: F) -> (r: Format<'a, I, F>)
    requires
        iter.wf(),
    ensures
        r.wf(),
        r.items() == iter.rest(),
        r.sep_v() == separator@,
        r.format_fn() == f,
{
    Format { sep: separator, iter, f }
}

/// Create a new `FormatDefault`.
pub fn new_format_default<'a, I: Itertools<Item = String>>(iter: I, separator: &'a str) -> (r: FormatDefault<'a, I>)
    requires
        iter.wf(),
    ensures
        r.wf(),
        r.items() == iter.rest(),
        r.sep_v() == separator@,
{
    FormatDefault { sep: separator, iter }
}

/// Append the parts that `iter` yields after `r`, each after `sep`; `r` holds the first.
fn append_rest<I: Itertools, F: FormatFn<I::Item>>(r: &mut String, iter: &mut I, sep: &str, f: &F, Ghost(done): Ghost<Seq<Seq<char>>>)
    requires
        old(iter).wf(),
        done.len() > 0,
        old(r)@ == joined(done, sep@),
    ensures
        final(iter).wf(),
        final(iter).rest().len() == 0,
        final(r)@ == joined(done + formatted(old(iter).rest(), *f), sep@),
{
    let ghost all = iter.rest();
    let ghost mut n: int = 0;
    loop
        invariant
            iter.wf(),
            all == old(iter).rest(),
            done.len() > 0,
            0 <= n <= all.len(),
            iter.rest() == all.skip(n),
            r@ == joined(done + formatted(all.take(n), *f), sep@),
        decreases iter.rest().len(),
    {
        match iter.next() {
            Some(elt) => {
                r.append(sep);
                let s = f.format(elt);
                r.append(s.as_str());
                proof {
                    let p = done + formatted(all.take(n + 1), *f);
                    assert(p.drop_last() =~= done + formatted(all.take(n), *f));
                    assert(p.last() == f.spec_format(elt));
                    n = n + 1;
                    assert(iter.rest() =~= all.skip(n));
                }
            },
            None => {
                proof {
                    assert(all.take(n) =~= all);
                }
                return;
            },
        }
    }
}

impl<'a, I: Itertools, F: FormatFn<I::Item>> Format<'a, I, F> {
    pub closed spec fn items(&self) -> Seq<I::Item> {
        self.iter.rest()
    }

    pub closed spec fn sep_v(&self) -> Seq<char> {
        self.sep@
    }

    pub closed spec fn format_fn(&self) -> F {
        self.f
    }

    pub closed spec fn wf(&self) -> bool {
        self.iter.wf()
    }

    /// The formatted items, separated by the separator; the items are consumed.
    pub fn to_string(&mut self) -> (r: String)
        requires
            old(self).wf(),
        ensures
            final(self).wf(),
            final(self).items().len() == 0,
            r@ == joined(formatted(old(self).items(), old(self).format_fn()), old(self).sep_v()),
    {
        let mut r = String::new();
        match self.iter.next() {
            Some(fst) => {
                let s = self.f.format(fst);
                r.append(s.as_str());
                proof {
                    assert(r@ == joined(seq![self.f.spec_format(fst)], self.sep@)) by {
                        assert(seq![self.f.spec_format(fst)].drop_last() =~= Seq::<Seq<char>>::empty());
                        assert(r@ =~= s@);
                    }
                }
                let ghost d = seq![self.f.spec_format(fst)];
                append_rest(&mut r, &mut self.iter, self.sep, &self.f, Ghost(d));
                proof {
                    assert(seq![self.f.spec_format(fst)] + formatted(old(self).items().drop_first(), self.f)
                        =~= formatted(old(self).items(), self.f));
                }
            },
            None => {
                proof {
                    assert(formatted(old(self).items(), self.f) =~= Seq::<Seq<char>>::empty());
                    assert(r@ =~= Seq::<char>::empty());
                }
            },
        }
        r
    }
}

/// Writing a string is the string itself.
pub struct AsIs;

impl FormatFn<String> for AsIs {
    open spec fn spec_format(&self, x: String) -> Seq<char> {
        x@
    }

    fn format(&self, x: String) -> (s: String) {
        x
    }
}

impl<'a, I: Itertools<Item = String>> FormatDefault<'a, I> {
    pub closed spec fn items(&self) -> Seq<String> {
        self.iter.rest()
    }

    pub closed spec fn sep_v(&self) -> Seq<char> {
        self.sep@
    }

    pub closed spec fn wf(&self) -> bool {
        self.iter.wf()
    }

    /// The strings, separated by the separator; the items are consumed.
    pub fn to_string(&mut self) -> (r: String)
        requires
            old(self).wf(),
        ensures
            final(self).wf(),
            final(self).items().len() == 0,
            r@ == joined(string_views(old(self).items()), old(self).sep_v()),
    {
        let mut r = String::new();
        match self.iter.next() {
            Some(fst) => {
                r.append(fst.as_str());
                proof {
                    assert(r@ == joined(seq![fst@], self.sep@)) by {
                        assert(seq![fst@].drop_last() =~= Seq::<Seq<char>>::empty());
                        assert(r@ =~= fst@);
                    }
                }
                let ghost d = seq![fst@];
                append_rest(&mut r, &mut self.iter, self.sep, &AsIs, Ghost(d));
                proof {
                    assert(formatted(old(self).items().drop_first(), AsIs) =~= string_views(old(self).items().drop_first()));
                    assert(seq![fst@] + string_views(old(self).items().drop_first()) =~= string_views(old(self).items()));
                }
            },
            None => {
                proof {
                    assert(string_views(old(self).items()) =~= Seq::<Seq<char>>::empty());
                    assert(r@ =~= Seq::<char>::empty());
                }
            },
        }
        r
    }
}

} // verus!
