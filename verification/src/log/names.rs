//! Short names of modules and files.
use vstd::prelude::*;
use vstd::slice::slice_subrange;

verus! {

/// Two colons stand at `i`.
pub open spec fn colons(s: Seq<u8>, i: int) -> bool {
    0 <= i && i + 1 < s.len() && s[i] == 58 && s[i + 1] == 58
}

/// Position of the first pair of colons from `i` on; the length if there is none.
pub open spec fn first_colons(s: Seq<u8>, i: int) -> int
    decreases s.len() - i,
{
    if i >= s.len() || colons(s, i) {
        i
    } else {
        first_colons(s, i + 1)
    }
}

/// Position behind the last pair of colons before `i`; zero if there is none.
pub open spec fn past_colons(s: Seq<u8>, i: int) -> int
    decreases i,
{
    if i <= 0 {
        0
    } else if colons(s, i - 1) {
        i + 1
    } else {
        past_colons(s, i - 1)
    }
}

/// The module path without its first segment, which is the name of the crate.
pub open spec fn without_crate(module: Seq<u8>) -> Seq<u8> {
    let i = first_colons(module, 0);
    if i < module.len() {
        module.subrange(i + 2, module.len() as int)
    } else {
        module
    }
}

/// The last segment of the module path.
pub open spec fn last_segment(module: Seq<u8>) -> Seq<u8> {
    module.subrange(past_colons(module, module.len() as int), module.len() as int)
}

/// Position behind the last slash before `i`; zero if there is none.
pub open spec fn past_slash(s: Seq<u8>, i: int) -> int
    decreases i,
{
    if i <= 0 {
        0
    } else if s[i - 1] == 47 {
        i
    } else {
        past_slash(s, i - 1)
    }
}

/// The last part of the file path.
pub open spec fn base_name(file: Seq<u8>) -> Seq<u8> {
    file.subrange(past_slash(file, file.len() as int), file.len() as int)
}

/// Strips the first segment of a module path.
pub fn strip_crate(module: &[u8]) -> (r: &[u8])
    ensures
        r@ == without_crate(module@),
{
    let n: usize = module.len();
    let mut i: usize = 0;
    while i < n && !(i + 1 < n && module[i] == 58 && module[i + 1] == 58)
        invariant
            i <= n,
            n == module@.len(),
            first_colons(module@, 0) == first_colons(module@, i as int),
        decreases n - i,
    {
        i += 1;
    }
    if i < n {
        slice_subrange(module, i + 2, n)
    } else {
        module
    }
}

/// The last segment of a module path.
pub fn short_module(module: &str) -> (r: &[u8])
    ensures
        r@ == last_segment(crate::text::utf8(module)),
{
    let s: &[u8] = module.as_bytes();
    let n: usize = s.len();
    let mut i: usize = n;
    while i > 0 && !(i < n && s[i - 1] == 58 && s[i] == 58)
        invariant
            i <= n,
            n == s@.len(),
            past_colons(s@, n as int) == past_colons(s@, i as int),
        decreases i,
    {
        i -= 1;
    }
    if i == 0 {
        slice_subrange(s, 0, n)
    } else {
        slice_subrange(s, i + 1, n)
    }
}

/// The last part of a file path.
pub fn short_file(file: &str) -> (r: &[u8])
    ensures
        r@ == base_name(crate::text::utf8(file)),
{
    let s: &[u8] = file.as_bytes();
    let n: usize = s.len();
    let mut i: usize = n;
    while i > 0 && s[i - 1] != 47
        invariant
            i <= n,
            n == s@.len(),
            past_slash(s@, n as int) == past_slash(s@, i as int),
        decreases i,
    {
        i -= 1;
    }
    slice_subrange(s, i, n)
}

/// A base name has no slash.
pub proof fn law_base_name(file: Seq<u8>, k: int)
    requires
        0 <= k < base_name(file).len(),
    ensures
        base_name(file)[k] != 47,
{
    lemma_past_slash(file, file.len() as int);
    assert(file[past_slash(file, file.len() as int) + k] != 47);
}

/// No slash stands behind the last one.
proof fn lemma_past_slash(s: Seq<u8>, i: int)
    requires
        0 <= i <= s.len(),
    ensures
        0 <= past_slash(s, i) <= i,
        forall|j: int| past_slash(s, i) <= j < i ==> #[trigger] s[j] != 47,
    decreases i,
{
    if i > 0 && s[i - 1] != 47 {
        lemma_past_slash(s, i - 1);
    }
}

/// No byte of the text is a colon.
pub open spec fn no_colon(s: Seq<u8>) -> bool {
    forall|i: int| 0 <= i < s.len() ==> #[trigger] s[i] != 58
}

/// The first pair of colons is where the bytes before are no colons.
proof fn lemma_first_colons(s: Seq<u8>, i: int, k: int)
    requires
        0 <= i <= k <= s.len(),
        forall|j: int| i <= j < k ==> #[trigger] s[j] != 58,
        k < s.len() ==> colons(s, k),
    ensures
        first_colons(s, i) == k,
    decreases k - i,
{
    if i < k {
        assert(s[i] != 58);
        lemma_first_colons(s, i + 1, k);
    }
}

/// A module path loses the name of its crate and the two colons behind it, and nothing else; a path of
/// one segment stays.
pub proof fn law_without_crate(name: Seq<u8>, rest: Seq<u8>)
    requires
        no_colon(name),
    ensures
        without_crate(name + seq![58u8, 58u8] + rest) == rest,
        without_crate(name) == name,
{
    let s = name + seq![58u8, 58u8] + rest;
    let n = name.len() as int;
    assert forall|j: int| 0 <= j < n implies #[trigger] s[j] != 58 by {
        assert(s[j] == name[j]);
    }
    lemma_first_colons(s, 0, n);
    lemma_first_colons(name, 0, n);
    assert(s.subrange(n + 2, s.len() as int) =~= rest);
}

/// The last pair of colons is the one behind which there are no colons.
proof fn lemma_past_colons(s: Seq<u8>, i: int, k: int)
    requires
        0 <= k <= i <= s.len(),
        k > 0 ==> 2 <= k && colons(s, k - 2),
        forall|j: int| k <= j < s.len() ==> #[trigger] s[j] != 58,
    ensures
        past_colons(s, i) == k,
    decreases i,
{
    if i > 0 {
        if i == k {
            if k < s.len() {
                assert(s[k] != 58);
            }
            assert(past_colons(s, i) == past_colons(s, i - 1));
            assert(colons(s, (i - 1) - 1));
        } else {
            assert(!colons(s, i - 1)) by {
                assert(s[i - 1] != 58);
            }
            lemma_past_colons(s, i - 1, k);
        }
    }
}

/// The short name of a module is what stands behind the last two colons; a path of one segment stays.
pub proof fn law_last_segment(path: Seq<u8>, name: Seq<u8>)
    requires
        no_colon(name),
    ensures
        last_segment(path + seq![58u8, 58u8] + name) == name,
        last_segment(name) == name,
{
    let s = path + seq![58u8, 58u8] + name;
    let k = path.len() as int + 2;
    assert forall|j: int| k <= j < s.len() implies #[trigger] s[j] != 58 by {
        assert(s[j] == name[j - k]);
    }
    assert(colons(s, k - 2));
    lemma_past_colons(s, s.len() as int, k);
    assert(s.subrange(k, s.len() as int) =~= name);
    lemma_past_colons(name, name.len() as int, 0);
    assert(name.subrange(0, name.len() as int) =~= name);
}

/// The short name of a file is what stands behind the last slash; a name without one stays.
pub proof fn law_file_name(dir: Seq<u8>, name: Seq<u8>)
    requires
        forall|i: int| 0 <= i < name.len() ==> #[trigger] name[i] != 47,
    ensures
        base_name(dir + seq![47u8] + name) == name,
        base_name(name) == name,
{
    let s = dir + seq![47u8] + name;
    let k = dir.len() as int + 1;
    lemma_slash_is(s, s.len() as int, k, name);
    assert(s.subrange(k, s.len() as int) =~= name);
    lemma_slash_is(name, name.len() as int, 0, name);
    assert(name.subrange(0, name.len() as int) =~= name);
}

/// The last slash is the one behind which there is none.
proof fn lemma_slash_is(s: Seq<u8>, i: int, k: int, name: Seq<u8>)
    requires
        0 <= k <= i <= s.len(),
        s.len() == k + name.len(),
        forall|j: int| 0 <= j < name.len() ==> #[trigger] name[j] != 47,
        forall|j: int| k <= j < s.len() ==> #[trigger] s[j] == name[j - k],
        k > 0 ==> s[k - 1] == 47,
    ensures
        past_slash(s, i) == k,
    decreases i,
{
    if i > k {
        assert(s[i - 1] == name[i - 1 - k]);
        lemma_slash_is(s, i - 1, k, name);
    }
}

} // verus!
