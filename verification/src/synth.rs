//! Stub synthesis: deterministic cache paths for a symbol's generated source
//! and object, the weak-stub source text itself, the reuse-or-compile cache
//! policy, and assembly of the final linker argument list.

use crate::resolve::make_wrap_name;
use crate::resolve::wrap_name;
use vstd::prelude::*;
use vstd::string::StringExecFns;

verus! {

/// The fixed directory where synthesized stubs are cached.
pub open spec fn stub_dir() -> Seq<char> {
    "/tmp/"@
}

/// Path of the generated C source for a symbol: `/tmp/__wrap_<name>.c`.
pub open spec fn stub_source_path(sym: Seq<char>) -> Seq<char> {
    stub_dir() + wrap_name(sym) + ".c"@
}

/// Path of the cached object for a symbol: `/tmp/__wrap_<name>.o`.
pub open spec fn stub_object_path(sym: Seq<char>) -> Seq<char> {
    stub_dir() + wrap_name(sym) + ".o"@
}

/// Build the deterministic source path for a symbol.
pub fn make_stub_source_path(sym: &str) -> (r: String)
    ensures
        r@ == stub_source_path(sym@),
{
    let wrapped = make_wrap_name(sym);
    let mut r = String::from_str("/tmp/");
    r.append(wrapped.as_str());
    r.append(".c");
    proof {
        assert(r@ =~= stub_source_path(sym@));
    }
    r
}

/// Build the deterministic object path for a symbol.
pub fn make_stub_object_path(sym: &str) -> (r: String)
    ensures
        r@ == stub_object_path(sym@),
{
    let wrapped = make_wrap_name(sym);
    let mut r = String::from_str("/tmp/");
    r.append(wrapped.as_str());
    r.append(".o");
    proof {
        assert(r@ =~= stub_object_path(sym@));
    }
    r
}

/// The C source of the default stub for a symbol: a weak definition of
/// `__wrap_<name>` that declares `__real_<name>` and forwards to it. Weak
/// linkage lets a real wrapper definition override the stub at link time.
pub open spec fn stub_source_text(sym: Seq<char>) -> Seq<char> {
    "void "@ + wrap_name(sym) + "() __attribute__((weak)) {\n    extern void __real_"@ + sym
        + "();\n    __real_"@ + sym + "();\n}\n"@
}

/// Build the stub source text for a symbol.
pub fn make_stub_source_text(sym: &str) -> (r: String)
    ensures
        r@ == stub_source_text(sym@),
{
    let wrapped = make_wrap_name(sym);
    let mut r = String::from_str("void ");
    r.append(wrapped.as_str());
    r.append("() __attribute__((weak)) {\n    extern void __real_");
    r.append(sym);
    r.append("();\n    __real_");
    r.append(sym);
    r.append("();\n}\n");
    proof {
        assert(r@ =~= stub_source_text(sym@));
    }
    r
}

/// The synthesis step for one symbol, given the state of the object cache.
#[derive(Clone, Copy, Debug, PartialEq, Eq, Structural)]
pub enum StubPlan {
    /// The object file already exists; reuse it without writing or compiling.
    Reuse,
    /// Write the stub source and compile it to the object path.
    Compile,
}

/// The cache policy: an object already present at the deterministic path is
/// reused as it stands; only a missing object has its source generated and
/// compiled.
pub fn plan_stub(object_exists: bool) -> (p: StubPlan)
    ensures
        object_exists ==> p == StubPlan::Reuse,
        !object_exists ==> p == StubPlan::Compile,
{
    if object_exists {
        StubPlan::Reuse
    } else {
        StubPlan::Compile
    }
}

/// The object path one synthesized symbol contributes to the final link line,
/// given whether its object is now available (found in the cache, or freshly
/// compiled with success). A failed compilation contributes nothing: the link
/// proceeds without that object.
pub fn stub_link_contribution(sym: &str, object_available: bool) -> (r: Option<String>)
    ensures
        object_available ==> r is Some && r->0@ == stub_object_path(sym@),
        !object_available ==> r is None,
{
    if object_available {
        Some(make_stub_object_path(sym))
    } else {
        None
    }
}

/// The final linker argument list: the original arguments unchanged and in
/// their original positions, with the synthesized object paths appended after
/// them.
pub fn final_link_args(original: &Vec<String>, generated: &Vec<String>) -> (r: Vec<String>)
    ensures
        r.deep_view() == original.deep_view() + generated.deep_view(),
{
    let mut r: Vec<String> = Vec::new();
    let n = original.len();
    let mut i: usize = 0;
    proof {
        assert(r.deep_view() =~= Seq::<Seq<char>>::empty());
        assert(original.deep_view().take(0) =~= Seq::<Seq<char>>::empty());
    }
    while i < n
        invariant
            n == original.len(),
            i <= n,
            r.deep_view() == original.deep_view().take(i as int),
        decreases n - i,
    {
        let ghost pre = r.deep_view();
        r.push(original[i].clone());
        proof {
            assert(r.deep_view() =~= pre.push(original@[i as int]@));
            assert(original.deep_view().take(i + 1 as int) =~= original.deep_view().take(
                i as int,
            ).push(original.deep_view()[i as int]));
        }
        i += 1;
    }
    proof {
        assert(original.deep_view().take(n as int) =~= original.deep_view());
    }
    let m = generated.len();
    let mut j: usize = 0;
    proof {
        assert(generated.deep_view().take(0) =~= Seq::<Seq<char>>::empty());
        assert(r.deep_view() =~= original.deep_view() + generated.deep_view().take(0));
    }
    while j < m
        invariant
            m == generated.len(),
            j <= m,
            r.deep_view() == original.deep_view() + generated.deep_view().take(j as int),
        decreases m - j,
    {
        let ghost pre = r.deep_view();
        r.push(generated[j].clone());
        proof {
            assert(r.deep_view() =~= pre.push(generated@[j as int]@));
            assert(generated.deep_view().take(j + 1 as int) =~= generated.deep_view().take(
                j as int,
            ).push(generated.deep_view()[j as int]));
            assert(r.deep_view() =~= original.deep_view() + generated.deep_view().take(
                j + 1 as int,
            ));
        }
        j += 1;
    }
    proof {
        assert(generated.deep_view().take(m as int) =~= generated.deep_view());
    }
    r
}

} // verus!
