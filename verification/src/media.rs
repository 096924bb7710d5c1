//! Recognising reference audio files by their path's extension.

use vstd::prelude::*;
use vstd::string::StringSliceAdditionalSpecFns;
use vstd::string::StrSliceExecFns;

verus! {

/// ASCII lowercasing of one byte; other bytes are unchanged.
pub open spec fn ascii_lower(b: u8) -> u8 {
    if 65 <= b <= 90 {
        (b + 32) as u8
    } else {
        b
    }
}

/// The last index at which `c` occurs in `s`, or `-1` when it does not.
pub open spec fn last_index_of(s: Seq<u8>, c: u8) -> int
    decreases s.len(),
{
    if s.len() == 0 {
        -1
    } else if s.last() == c {
        s.len() - 1
    } else {
        last_index_of(s.drop_last(), c)
    }
}

/// The extension of a path, as bytes: the part of the final `/`-separated
/// component after its last `.`, provided that dot exists and is not the
/// component's first byte (a leading dot marks a hidden file, not an
/// extension).
pub open spec fn spec_extension(s: Seq<u8>) -> Option<Seq<u8>> {
    let comp = s.skip(last_index_of(s, 47) + 1);
    let d = last_index_of(comp, 46);
    if d <= 0 {
        None
    } else {
        Some(comp.skip(d + 1))
    }
}

/// The lowercased extensions accepted as reference audio: mp3, wav, flac,
/// m4a, aac, ogg, opus, wma.
pub open spec fn spec_audio_ext(e: Seq<u8>) -> bool {
    ||| e == seq![109u8, 112u8, 51u8]  // mp3
    ||| e == seq![119u8, 97u8, 118u8]  // wav
    ||| e == seq![102u8, 108u8, 97u8, 99u8]  // flac
    ||| e == seq![109u8, 52u8, 97u8]  // m4a
    ||| e == seq![97u8, 97u8, 99u8]  // aac
    ||| e == seq![111u8, 103u8, 103u8]  // ogg
    ||| e == seq![111u8, 112u8, 117u8, 115u8]  // opus
    ||| e == seq![119u8, 109u8, 97u8]  // wma
}

/// Whether a path names a reference audio file: it has an extension whose
/// ASCII-lowercased bytes are one of the accepted audio extensions.
pub open spec fn spec_is_audio_file(s: Seq<u8>) -> bool {
    match spec_extension(s) {
        None => false,
        Some(e) => spec_audio_ext(e.map_values(|b: u8| ascii_lower(b))),
    }
}

proof fn lemma_last_index_found(s: Seq<u8>, c: u8, k: int)
    requires
        0 <= k < s.len(),
        s[k] == c,
        forall|u: int| k < u < s.len() ==> s[u] != c,
    ensures
        last_index_of(s, c) == k,
    decreases s.len(),
{
    if k == s.len() - 1 {
    } else {
        assert(s.last() != c);
        assert forall|u: int| k < u < s.drop_last().len() implies s.drop_last()[u] != c by {
            assert(s.drop_last()[u] == s[u]);
        }
        lemma_last_index_found(s.drop_last(), c, k);
    }
}

proof fn lemma_last_index_bounds(s: Seq<u8>, c: u8)
    ensures
        -1 <= last_index_of(s, c) < s.len(),
    decreases s.len(),
{
    if s.len() == 0 {
    } else if s.last() == c {
    } else {
        lemma_last_index_bounds(s.drop_last(), c);
    }
}

proof fn lemma_last_index_low(s: Seq<u8>, c: u8, k: int)
    requires
        0 <= k <= s.len(),
        forall|u: int| k <= u < s.len() ==> s[u] != c,
    ensures
        last_index_of(s, c) < k,
    decreases s.len(),
{
    lemma_last_index_bounds(s, c);
    if s.len() == 0 {
    } else if s.last() == c {
        if k < s.len() {
            assert(s[s.len() - 1] != c);
        }
    } else {
        let k2: int = if k <= s.len() - 1 {
            k
        } else {
            s.len() - 1
        };
        assert forall|u: int| k2 <= u < s.drop_last().len() implies s.drop_last()[u] != c by {
            assert(s.drop_last()[u] == s[u]);
            if u < k {
                assert(u == s.len() - 1);
            }
        }
        lemma_last_index_low(s.drop_last(), c, k2);
    }
}

/// Whether the path names an audio file the service ingests, judged by its
/// extension, case-insensitively.
pub fn is_audio_file(path: &str) -> (r: bool)
    ensures
        r == spec_is_audio_file(path.spec_bytes()),
{
    let bytes: Vec<u8> = path.as_bytes_vec();
    let n: usize = bytes.len();
    let ghost v = bytes@;

    // Start of the final path component: one past the last '/'.
    let mut start: usize = 0;
    let mut i: usize = 0;
    while i < n
        invariant
            i <= n,
            n == v.len(),
            bytes@ == v,
            start == 0 || (1 <= start <= i && v[start - 1] == 47),
            forall|u: int| start <= u < i ==> v[u] != 47,
            start == 0 ==> forall|u: int| 0 <= u < i ==> v[u] != 47,
        decreases n - i,
    {
        if bytes[i] == 47 {
            start = i + 1;
        }
        i = i + 1;
    }
    proof {
        lemma_last_index_bounds(v, 47);
        if start == 0 {
            lemma_last_index_low(v, 47, 0);
        } else {
            lemma_last_index_found(v, 47, start - 1);
        }
        assert(last_index_of(v, 47) + 1 == start);
    }
    let ghost comp = v.skip(start as int);
    if start == n {
        proof {
            assert(comp.len() == 0);
            assert(last_index_of(comp, 46) == -1);
        }
        return false;
    }

    // Last '.' of the component, ignoring a dot in its first position.
    let mut dpos: usize = 0;
    let mut j: usize = start + 1;
    while j < n
        invariant
            start + 1 <= j || j == n + 1,
            j <= n + 1,
            n == v.len(),
            bytes@ == v,
            dpos == 0 || (start + 1 <= dpos && dpos < n && (dpos as int) < j && v[dpos as int]
                == 46),
            forall|u: int| dpos < u < j && start + 1 <= u ==> v[u] != 46,
        decreases n - j,
    {
        if bytes[j] == 46 {
            dpos = j;
        }
        j = j + 1;
    }
    proof {
        assert(comp.len() == v.len() - start);
        assert forall|u: int| 0 <= u < comp.len() implies comp[u] == v[start + u] by {}
        if dpos == 0 {
            if comp.len() == 0 {
                assert(last_index_of(comp, 46) == -1);
            } else {
                assert forall|u: int| 1 <= u < comp.len() implies comp[u] != 46 by {
                    assert(comp[u] == v[start + u]);
                }
                lemma_last_index_low(comp, 46, 1);
            }
            assert(last_index_of(comp, 46) <= 0);
        } else {
            let d = dpos - start;
            assert(comp[d] == v[dpos as int]);
            assert forall|u: int| d < u < comp.len() implies comp[u] != 46 by {
                assert(comp[u] == v[start + u]);
            }
            lemma_last_index_found(comp, 46, d);
            assert(last_index_of(comp, 46) == d && d >= 1);
        }
    }
    if dpos == 0 {
        return false;
    }

    // Lowercase the extension bytes.
    let mut ext: Vec<u8> = Vec::new();
    let mut k: usize = dpos + 1;
    while k < n
        invariant
            dpos + 1 <= k <= n,
            n == v.len(),
            bytes@ == v,
            ext@.len() == k - (dpos + 1),
            forall|u: int| 0 <= u < ext@.len() ==> ext@[u] == ascii_lower(v[dpos + 1 + u]),
        decreases n - k,
    {
        let b: u8 = bytes[k];
        let low: u8 = if b >= 65 && b <= 90 {
            b + 32
        } else {
            b
        };
        ext.push(low);
        k = k + 1;
    }
    proof {
        let d = dpos - start;
        assert(comp.skip(d + 1) =~= v.skip(dpos + 1));
        assert(ext@ =~= v.skip(dpos + 1).map_values(|b: u8| ascii_lower(b)));
        assert(spec_extension(v) == Some(v.skip(dpos + 1)));
    }
    ext_is_audio(&ext)
}

/// Whether lowercased extension bytes are one of the accepted audio
/// extensions.
fn ext_is_audio(e: &Vec<u8>) -> (r: bool)
    ensures
        r == spec_audio_ext(e@),
{
    let m: usize = e.len();
    let r: bool = if m == 3 {
        (e[0] == 109 && e[1] == 112 && e[2] == 51) || (e[0] == 119 && e[1] == 97 && e[2] == 118)
            || (e[0] == 109 && e[1] == 52 && e[2] == 97) || (e[0] == 97 && e[1] == 97 && e[2] == 99)
            || (e[0] == 111 && e[1] == 103 && e[2] == 103) || (e[0] == 119 && e[1] == 109 && e[2]
            == 97)
    } else if m == 4 {
        (e[0] == 102 && e[1] == 108 && e[2] == 97 && e[3] == 99) || (e[0] == 111 && e[1] == 112
            && e[2] == 117 && e[3] == 115)
    } else {
        false
    };
    proof {
        if r {
            if m == 3 {
                if e@[0] == 109 && e@[1] == 112 && e@[2] == 51 {
                    assert(e@ =~= seq![109u8, 112u8, 51u8]);
                } else if e@[0] == 119 && e@[1] == 97 && e@[2] == 118 {
                    assert(e@ =~= seq![119u8, 97u8, 118u8]);
                } else if e@[0] == 109 && e@[1] == 52 && e@[2] == 97 {
                    assert(e@ =~= seq![109u8, 52u8, 97u8]);
                } else if e@[0] == 97 && e@[1] == 97 && e@[2] == 99 {
                    assert(e@ =~= seq![97u8, 97u8, 99u8]);
                } else if e@[0] == 111 && e@[1] == 103 && e@[2] == 103 {
                    assert(e@ =~= seq![111u8, 103u8, 103u8]);
                } else {
                    assert(e@ =~= seq![119u8, 109u8, 97u8]);
                }
            } else {
                if e@[0] == 102 && e@[1] == 108 && e@[2] == 97 && e@[3] == 99 {
                    assert(e@ =~= seq![102u8, 108u8, 97u8, 99u8]);
                } else {
                    assert(e@ =~= seq![111u8, 112u8, 117u8, 115u8]);
                }
            }
        }
    }
    r
}

} // verus!

