//! Byte- and text-level scanning of a form-data body: the file name from
//! its header, and the content between the blank line and the closing
//! boundary. The byte scans stop one position short of a match flush with
//! the end, as the header-content split never sits there.
use vstd::prelude::*;
use vstd::string::*;

verus! {

/// First position where `pat` occurs in `s` with at least one byte left
/// after it; negative when there is none.
pub open spec fn spec_find_marker(s: Seq<u8>, pat: Seq<u8>) -> int
    decreases s.len(),
{
    if s.len() <= pat.len() {
        -1
    } else if s.take(pat.len() as int) == pat {
        0
    } else {
        let r = spec_find_marker(s.skip(1), pat);
        if r < 0 {
            -1
        } else {
            r + 1
        }
    }
}

/// Scans for the first occurrence of `pat` that leaves a byte behind it.
fn find_marker(hay: &[u8], pat: &Vec<u8>) -> (r: Option<usize>)
    requires
        pat@.len() > 0,
    ensures
        match r {
            Some(i) => spec_find_marker(hay@, pat@) == i && i + pat@.len() < hay@.len(),
            None => spec_find_marker(hay@, pat@) < 0,
        },
{
    let n = hay.len();
    let m = pat.len();
    let mut i: usize = 0;
    proof {
        assert(hay@.skip(0) =~= hay@);
    }
    loop
        invariant
            n == hay@.len(),
            m == pat@.len(),
            m > 0,
            0 <= i <= n,
            spec_find_marker(hay@, pat@) == if spec_find_marker(hay@.skip(i as int), pat@) < 0 {
                -1
            } else {
                spec_find_marker(hay@.skip(i as int), pat@) + i
            },
        decreases n - i,
    {
        let ghost t = hay@.skip(i as int);
        if n - i <= m {
            proof {
                assert(spec_find_marker(t, pat@) < 0);
            }
            return None;
        }
        let mut j: usize = 0;
        let mut matched = true;
        while j < m
            invariant
                n == hay@.len(),
                m == pat@.len(),
                0 <= i,
                i + m < n,
                0 <= j <= m,
                t == hay@.skip(i as int),
                matched == (forall|q: int| 0 <= q < j ==> t[q] == pat@[q]),
            decreases m - j,
        {
            proof {
                assert(t[j as int] == hay@[i + j]);
            }
            if hay[i + j] != pat[j] {
                matched = false;
                proof {
                    assert(t[j as int] != pat@[j as int]);
                }
                j = m;
            } else {
                j = j + 1;
            }
        }
        if matched {
            proof {
                assert(t.take(m as int) =~= pat@);
                assert(spec_find_marker(t, pat@) == 0);
            }
            return Some(i);
        }
        proof {
            assert(t.take(m as int)[choose|q: int| 0 <= q < m && t[q] != pat@[q]] != pat@[
                choose|q: int| 0 <= q < m && t[q] != pat@[q]
            ]);
            assert(t.take(m as int) != pat@);
            assert(t.skip(1) =~= hay@.skip(i + 1));
        }
        i = i + 1;
    }
}

/// Where the closing boundary marker begins inside already-cut content.
pub fn find_boundary_end(content: &[u8]) -> (r: Option<usize>)
    ensures
        match r {
            Some(i) => spec_find_marker(content@, seq![13u8, 10u8, 45u8, 45u8]) == i && i + 4
                < content@.len(),
            None => spec_find_marker(content@, seq![13u8, 10u8, 45u8, 45u8]) < 0,
        },
{
    let mut marker: Vec<u8> = Vec::new();
    marker.push(13);
    marker.push(10);
    marker.push(45);
    marker.push(45);
    proof {
        assert(marker@ =~= seq![13u8, 10u8, 45u8, 45u8]);
    }
    find_marker(content, &marker)
}

/// The bytes between the header separator (a blank line) and the closing
/// boundary; the whole body when no separator is found, the whole rest
/// when no boundary follows.
pub open spec fn spec_extract_file_content(b: Seq<u8>) -> Seq<u8> {
    let sep = seq![13u8, 10u8, 13u8, 10u8];
    let i = spec_find_marker(b, sep);
    if i < 0 {
        b
    } else {
        let content = b.skip(i + 4);
        let j = spec_find_marker(content, seq![13u8, 10u8, 45u8, 45u8]);
        if j < 0 {
            content
        } else {
            content.take(j)
        }
    }
}

fn copy_range(b: &[u8], from: usize, to: usize) -> (r: Vec<u8>)
    requires
        from <= to <= b@.len(),
    ensures
        r@ == b@.subrange(from as int, to as int),
{
    let mut out: Vec<u8> = Vec::new();
    let mut k: usize = from;
    while k < to
        invariant
            from <= k <= to <= b@.len(),
            out@ == b@.subrange(from as int, k as int),
        decreases to - k,
    {
        proof {
            assert(b@.subrange(from as int, k + 1) =~= b@.subrange(from as int, k as int).push(
                b@[k as int],
            ));
        }
        out.push(b[k]);
        k = k + 1;
    }
    out
}

/// Cuts the file bytes out of a form-data body.
pub fn extract_file_content(body_bytes: &[u8]) -> (r: Vec<u8>)
    ensures
        r@ == spec_extract_file_content(body_bytes@),
{
    let mut sep: Vec<u8> = Vec::new();
    sep.push(13);
    sep.push(10);
    sep.push(13);
    sep.push(10);
    proof {
        assert(sep@ =~= seq![13u8, 10u8, 13u8, 10u8]);
    }
    match find_marker(body_bytes, &sep) {
        None => {
            let whole = copy_range(body_bytes, 0, body_bytes.len());
            proof {
                assert(whole@ =~= body_bytes@);
            }
            whole
        },
        Some(i) => {
            let blen = body_bytes.len();
            let content = copy_range(body_bytes, i + 4, blen);
            proof {
                assert(content@ =~= body_bytes@.skip(i + 4));
            }
            match find_boundary_end(content.as_slice()) {
                None => content,
                Some(j) => {
                    proof {
                        assert(spec_find_marker(content@, seq![13u8, 10u8, 45u8, 45u8]) == j);
                        assert(j <= content@.len());
                    }
                    let cut = copy_range(content.as_slice(), 0, j);
                    proof {
                        assert(cut@ =~= content@.take(j as int));
                    }
                    cut
                },
            }
        },
    }
}

/// First position where `pat` occurs in `s`; negative when there is none.
pub open spec fn spec_find_chars(s: Seq<char>, pat: Seq<char>) -> int
    decreases s.len(),
{
    if s.len() < pat.len() {
        -1
    } else if s.take(pat.len() as int) == pat {
        0
    } else if s.len() == pat.len() {
        -1
    } else {
        let r = spec_find_chars(s.skip(1), pat);
        if r < 0 {
            -1
        } else {
            r + 1
        }
    }
}

pub(crate) fn find_chars(hay: &str, pat: &str) -> (r: Option<usize>)
    requires
        pat@.len() > 0,
    ensures
        match r {
            Some(i) => spec_find_chars(hay@, pat@) == i && i + pat@.len() <= hay@.len(),
            None => spec_find_chars(hay@, pat@) < 0,
        },
{
    let n = hay.unicode_len();
    let m = pat.unicode_len();
    let mut i: usize = 0;
    proof {
        assert(hay@.skip(0) =~= hay@);
    }
    loop
        invariant
            n == hay@.len(),
            m == pat@.len(),
            m > 0,
            0 <= i <= n,
            spec_find_chars(hay@, pat@) == if spec_find_chars(hay@.skip(i as int), pat@) < 0 {
                -1
            } else {
                spec_find_chars(hay@.skip(i as int), pat@) + i
            },
        decreases n - i,
    {
        let ghost t = hay@.skip(i as int);
        if n - i < m {
            proof {
                assert(spec_find_chars(t, pat@) < 0);
            }
            return None;
        }
        let mut j: usize = 0;
        let mut matched = true;
        while j < m
            invariant
                n == hay@.len(),
                m == pat@.len(),
                0 <= i,
                i + m <= n,
                0 <= j <= m,
                t == hay@.skip(i as int),
                matched == (forall|q: int| 0 <= q < j ==> t[q] == pat@[q]),
            decreases m - j,
        {
            proof {
                assert(t[j as int] == hay@[i + j]);
            }
            if hay.get_char(i + j) != pat.get_char(j) {
                matched = false;
                proof {
                    assert(t[j as int] != pat@[j as int]);
                }
                j = m;
            } else {
                j = j + 1;
            }
        }
        if matched {
            proof {
                assert(t.take(m as int) =~= pat@);
                assert(spec_find_chars(t, pat@) == 0);
            }
            return Some(i);
        }
        proof {
            let q = choose|q: int| 0 <= q < m && t[q] != pat@[q];
            assert(t.take(m as int)[q] != pat@[q]);
            assert(t.take(m as int) != pat@);
            if n - i == m {
                assert(spec_find_chars(t, pat@) < 0);
            }
            assert(t.skip(1) =~= hay@.skip(i + 1));
        }
        if n - i == m {
            return None;
        }
        i = i + 1;
    }
}

/// The name between the quotes of the body's filename field, when both
/// the field and its closing quote are present.
pub open spec fn spec_extract_filename(s: Seq<char>) -> Option<Seq<char>> {
    let f = spec_find_chars(s, "filename=\""@);
    if f < 0 {
        None
    } else {
        let rest = s.skip(f + 10);
        let q = spec_find_chars(rest, "\""@);
        if q < 0 {
            None
        } else {
            Some(rest.take(q))
        }
    }
}

/// Reads the uploaded file's name out of the body text.
pub fn extract_filename(body_str: &str) -> (r: Option<String>)
    ensures
        match r {
            Some(name) => spec_extract_filename(body_str@) == Some(name@),
            None => spec_extract_filename(body_str@) is None,
        },
{
    proof {
        reveal_strlit("filename=\"");
        reveal_strlit("\"");
    }
    let f = match find_chars(body_str, "filename=\"") {
        None => {
            return None;
        },
        Some(f) => f,
    };
    let len = body_str.unicode_len();
    let rest = body_str.substring_char(f + 10, len);
    proof {
        assert(rest@ =~= body_str@.skip(f + 10));
    }
    match find_chars(rest, "\"") {
        None => None,
        Some(q) => {
            let name = rest.substring_char(0, q);
            proof {
                assert(name@ =~= rest@.take(q as int));
            }
            Some(String::from_str(name))
        },
    }
}

} // verus!
