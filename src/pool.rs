//! A pool of distinct content strings, held by an outside string interner.
use vstd::prelude::*;
use string_interner::{DefaultBackend, StringInterner, Symbol};
use string_interner::symbol::SymbolU32;

verus! {

/// The strings interned so far, in the order in which they were first seen.
#[verifier::external_body]
pub struct ContentPool {
    inner: StringInterner<DefaultBackend>,
}

/// What a pool holds: its strings, each index being the symbol it was given.
pub uninterp spec fn pool_items(p: ContentPool) -> Seq<Seq<char>>;

/// Relies on `StringInterner::new`: an interner that holds no string.
#[verifier::external_body]
pub(crate) fn pool_new() -> (r: ContentPool)
    ensures
        pool_items(r) == Seq::<Seq<char>>::empty(),
{
    ContentPool { inner: StringInterner::new() }
}

/// Relies on `StringInterner::len`: the number of distinct strings interned.
#[verifier::external_body]
pub(crate) fn pool_len(p: &ContentPool) -> (r: usize)
    ensures
        r == pool_items(*p).len(),
{
    p.inner.len()
}

/// Relies on `StringInterner::get_or_intern` over the default string backend,
/// whose symbols count up from zero: a string already held gets its symbol
/// back; a new one is appended and gets the next. It panics once a `u32`
/// cannot number the next string.
#[verifier::external_body]
pub(crate) fn pool_intern(p: &mut ContentPool, s: &str) -> (r: usize)
    requires
        pool_items(*old(p)).len() < 0xFFFF_FFFE,
    ensures
        pool_items(*old(p)).contains(s@) ==> pool_items(*final(p)) == pool_items(*old(p)) && r
            < pool_items(*old(p)).len() && pool_items(*old(p))[r as int] == s@,
        !pool_items(*old(p)).contains(s@) ==> pool_items(*final(p)) == pool_items(*old(p)).push(s@)
            && r == pool_items(*old(p)).len(),
{
    p.inner.get_or_intern(s).to_usize()
}

/// Relies on `StringInterner::resolve`: the string of a symbol handed out earlier.
#[verifier::external_body]
pub(crate) fn pool_resolve(p: &ContentPool, i: usize) -> (r: Option<String>)
    ensures
        i < pool_items(*p).len() ==> r is Some && r->0@ == pool_items(*p)[i as int],
{
    let sym = SymbolU32::try_from_usize(i)?;
    Some(p.inner.resolve(sym)?.to_owned())
}

} // verus!
