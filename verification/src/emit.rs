//! Emitter: renders a packed animation as constant-array declarations in two
//! dialects — in-memory array literals, and flash-resident constant arrays —
//! followed by a total-size summary.  Pure formatting: the emitted text is
//! pinned, element for element, to the packed arrays.

use vstd::prelude::*;
use vstd::string::StrSliceExecFns;
use vstd::string::StringExecFns;

use crate::pack::CompactAnimation;

verus! {

/// The decimal digit character for `d < 10`.
pub open spec fn dec_digit(d: nat) -> char {
    if d == 0 {
        '0'
    } else if d == 1 {
        '1'
    } else if d == 2 {
        '2'
    } else if d == 3 {
        '3'
    } else if d == 4 {
        '4'
    } else if d == 5 {
        '5'
    } else if d == 6 {
        '6'
    } else if d == 7 {
        '7'
    } else if d == 8 {
        '8'
    } else {
        '9'
    }
}

/// The decimal rendering of `n`, most significant digit first, no leading
/// zeros (a single `'0'` for zero).
pub open spec fn dec_str(n: nat) -> Seq<char>
    decreases n,
{
    if n < 10 {
        seq![dec_digit(n)]
    } else {
        dec_str(n / 10) + seq![dec_digit(n % 10)]
    }
}

/// The elements of `arr` in decimal, separated by `", "`.
pub open spec fn join_dec(arr: Seq<usize>) -> Seq<char>
    decreases arr.len(),
{
    if arr.len() == 0 {
        Seq::empty()
    } else if arr.len() == 1 {
        dec_str(arr[0] as nat)
    } else {
        join_dec(arr.drop_last()) + ", "@ + dec_str(arr.last() as nat)
    }
}

/// A byte sequence seen as plain numbers (a byte prints as its decimal
/// value in both dialects).
pub open spec fn widen_seq(s: Seq<u8>) -> Seq<usize> {
    s.map_values(|b: u8| b as usize)
}

/// One `const` array declaration in the in-memory dialect.
pub open spec fn rust_array_text(name: Seq<char>, rust_type: Seq<char>, arr: Seq<usize>) -> Seq<
    char,
> {
    "const "@ + name + ": ["@ + rust_type + "; "@ + dec_str(arr.len()) + "] = ["@ + join_dec(arr)
        + "];"@
}

/// The brace-delimited element list of the flash dialect.
pub open spec fn c_array_body(arr: Seq<usize>) -> Seq<char> {
    "{"@ + join_dec(arr) + "}"@
}

/// One read-only array declaration in the flash dialect.
pub open spec fn c_array_text(name: Seq<char>, c_type: Seq<char>, arr: Seq<usize>) -> Seq<char> {
    "static const "@ + c_type + " PROGMEM "@ + name + "["@ + dec_str(arr.len()) + "] = "@
        + c_array_body(arr) + ";"@
}

/// A line of the report: its text and a newline.
pub open spec fn line(t: Seq<char>) -> Seq<char> {
    t + "\n"@
}

/// The single decimal digit as a one-character string.
fn digit_str(d: usize) -> (r: &'static str)
    requires
        d < 10,
    ensures
        r@ == seq![dec_digit(d as nat)],
{
    if d == 0 {
        proof {
            reveal_strlit("0");
            assert("0"@ =~= seq![dec_digit(0)]);
        }
        "0"
    } else if d == 1 {
        proof {
            reveal_strlit("1");
            assert("1"@ =~= seq![dec_digit(1)]);
        }
        "1"
    } else if d == 2 {
        proof {
            reveal_strlit("2");
            assert("2"@ =~= seq![dec_digit(2)]);
        }
        "2"
    } else if d == 3 {
        proof {
            reveal_strlit("3");
            assert("3"@ =~= seq![dec_digit(3)]);
        }
        "3"
    } else if d == 4 {
        proof {
            reveal_strlit("4");
            assert("4"@ =~= seq![dec_digit(4)]);
        }
        "4"
    } else if d == 5 {
        proof {
            reveal_strlit("5");
            assert("5"@ =~= seq![dec_digit(5)]);
        }
        "5"
    } else if d == 6 {
        proof {
            reveal_strlit("6");
            assert("6"@ =~= seq![dec_digit(6)]);
        }
        "6"
    } else if d == 7 {
        proof {
            reveal_strlit("7");
            assert("7"@ =~= seq![dec_digit(7)]);
        }
        "7"
    } else if d == 8 {
        proof {
            reveal_strlit("8");
            assert("8"@ =~= seq![dec_digit(8)]);
        }
        "8"
    } else {
        proof {
            reveal_strlit("9");
            assert("9"@ =~= seq![dec_digit(9)]);
        }
        "9"
    }
}

/// Appends the decimal rendering of `n`.
fn push_dec(s: &mut String, n: usize)
    ensures
        final(s)@ == old(s)@ + dec_str(n as nat),
    decreases n,
{
    if n >= 10 {
        push_dec(s, n / 10);
        let ds = digit_str(n % 10);
        s.append(ds);
        proof {
            assert(dec_str(n as nat) == dec_str(n as nat / 10) + seq![dec_digit(n as nat % 10)]);
            assert(s@ =~= old(s)@ + dec_str(n as nat));
        }
    } else {
        let ds = digit_str(n);
        s.append(ds);
        proof {
            assert(s@ =~= old(s)@ + dec_str(n as nat));
        }
    }
}

/// Appends the `", "`-separated decimal list of `arr`.
fn push_join(s: &mut String, arr: &[usize])
    ensures
        final(s)@ == old(s)@ + join_dec(arr@),
{
    let ghost s0 = old(s)@;
    let mut i: usize = 0;
    proof {
        assert(arr@.take(0) =~= Seq::<usize>::empty());
        assert(s@ =~= s0 + join_dec(arr@.take(0)));
    }
    while i < arr.len()
        invariant
            0 <= i <= arr@.len(),
            s@ == s0 + join_dec(arr@.take(i as int)),
        decreases arr@.len() - i,
    {
        if i > 0 {
            s.append(", ");
        }
        push_dec(s, arr[i]);
        i = i + 1;
        proof {
            let pre = arr@.take(i as int);
            assert(pre.drop_last() =~= arr@.take(i - 1));
            assert(pre.last() == arr@[i - 1]);
            if i == 1 {
                assert(join_dec(pre) == dec_str(arr@[0] as nat));
            } else {
                assert(join_dec(pre) == join_dec(arr@.take(i - 1)) + ", "@ + dec_str(
                    arr@[i - 1] as nat,
                ));
            }
            assert(s@ =~= s0 + join_dec(pre));
        }
    }
    proof {
        assert(arr@.take(arr@.len() as int) =~= arr@);
    }
}

/// The brace-delimited element list of an array, as emitted in the flash
/// dialect.
pub fn as_c_array_string(v: &[usize]) -> (r: String)
    ensures
        r@ == c_array_body(v@),
{
    let mut s = String::new();
    s.append("{");
    push_join(&mut s, v);
    s.append("}");
    proof {
        assert(s@ =~= c_array_body(v@));
    }
    s
}

/// One `const` array declaration in the in-memory dialect.
pub fn fmt_as_rust_array(name: &str, rust_type: &str, array: &[usize]) -> (r: String)
    ensures
        r@ == rust_array_text(name@, rust_type@, array@),
{
    let mut s = String::new();
    s.append("const ");
    s.append(name);
    s.append(": [");
    s.append(rust_type);
    s.append("; ");
    push_dec(&mut s, array.len());
    s.append("] = [");
    push_join(&mut s, array);
    s.append("];");
    proof {
        assert(s@ =~= rust_array_text(name@, rust_type@, array@));
    }
    s
}

/// One read-only array declaration in the flash dialect.
pub fn fmt_as_c_array(name: &str, c_type: &str, array: &[usize]) -> (r: String)
    ensures
        r@ == c_array_text(name@, c_type@, array@),
{
    let mut s = String::new();
    s.append("static const ");
    s.append(c_type);
    s.append(" PROGMEM ");
    s.append(name);
    s.append("[");
    push_dec(&mut s, array.len());
    s.append("] = ");
    let body = as_c_array_string(array);
    s.append(body.as_str());
    s.append(";");
    proof {
        assert(s@ =~= c_array_text(name@, c_type@, array@));
    }
    s
}

/// Appends a line of the report: the text and a newline.
fn push_line(s: &mut String, t: &str)
    ensures
        final(s)@ == old(s)@ + line(t@),
{
    s.append(t);
    s.append("\n");
    proof {
        assert(s@ =~= old(s)@ + line(t@));
    }
}

/// The byte values of `v` as plain numbers.
fn widen_bytes(v: &[u8]) -> (r: Vec<usize>)
    ensures
        r@ == widen_seq(v@),
{
    let mut out: Vec<usize> = Vec::new();
    let mut i: usize = 0;
    while i < v.len()
        invariant
            0 <= i <= v@.len(),
            out@.len() == i,
            forall|j: int| 0 <= j < i ==> out@[j] == v@[j] as usize,
        decreases v@.len() - i,
    {
        out.push(v[i] as usize);
        i = i + 1;
    }
    proof {
        assert(out@ =~= widen_seq(v@));
    }
    out
}

/// The region boundary offsets as one sequence.
pub open spec fn boundaries_regions_seq(a: &CompactAnimation) -> Seq<usize> {
    Seq::new(1 + a.num_frames(), |j: int| a.regions_boundary(j) as usize)
}

/// The byte boundary offsets as one sequence.
pub open spec fn boundaries_bytes_seq(a: &CompactAnimation) -> Seq<usize> {
    Seq::new(1 + a.num_frames(), |j: int| a.bytes_boundary(j) as usize)
}

/// The whole report: both dialects over the same packed arrays, then the
/// total-size line.
pub open spec fn report_text(a: &CompactAnimation) -> Seq<char> {
    line("#### Rust ####"@) + line("```"@) + line(
        "const FRAME_SIZE: usize = "@ + dec_str(a.spec_frame_len() as nat) + ";"@,
    ) + line(
        rust_array_text(
            "DIFF_REGIONS_BOUNDARIES"@,
            "usize"@,
            boundaries_regions_seq(a),
        ),
    ) + line(rust_array_text("DIFF_REGIONS"@, "usize"@, a.regions_cat(a.num_frames() as int)))
        + line(
        rust_array_text("DIFF_BYTES_BOUNDARIES"@, "usize"@, boundaries_bytes_seq(a)),
    ) + line(
        rust_array_text("DIFF_BYTES"@, "u8"@, widen_seq(a.bytes_cat(a.num_frames() as int))),
    ) + line("```"@) + line("#### C ####"@) + line("```"@) + line(
        "#define FRAME_SIZE "@ + dec_str(a.spec_frame_len() as nat),
    ) + line(
        c_array_text(
            "diff_regions_boundaries"@,
            "uint16_t"@,
            boundaries_regions_seq(a),
        ),
    ) + line(c_array_text("diff_regions"@, "uint16_t"@, a.regions_cat(a.num_frames() as int)))
        + line(
        c_array_text("diff_bytes_boundaries"@, "uint16_t"@, boundaries_bytes_seq(a)),
    ) + line(
        c_array_text("diff_bytes"@, "char"@, widen_seq(a.bytes_cat(a.num_frames() as int))),
    ) + line("```"@) + line("Total size in bytes: "@ + dec_str(a.spec_total_size() as nat))
}

/// Renders the packed animation in both dialects, with the total-size
/// summary.
pub fn emit_animation(a: &CompactAnimation) -> (r: String)
    requires
        a.spec_total_size() <= usize::MAX,
    ensures
        r@ == report_text(a),
{
    proof {
        a.lemma_bytes_boundary_mono(0, a.num_frames() as int);
        a.lemma_regions_boundary_mono(0, a.num_frames() as int);
    }
    let region_bounds = a.differing_regions_boundaries();
    let regions = a.differing_regions();
    let byte_bounds = a.differing_bytes_boundaries();
    let bytes = a.differing_bytes();
    let wide_bytes = widen_bytes(bytes.as_slice());
    proof {
        assert(region_bounds@ =~= boundaries_regions_seq(a));
        assert(byte_bounds@ =~= boundaries_bytes_seq(a));
    }
    let frame_len = a.frame_len_value();
    let total = a.total_size();

    let mut s = String::new();
    push_line(&mut s, "#### Rust ####");
    push_line(&mut s, "```");
    let mut l = String::new();
    l.append("const FRAME_SIZE: usize = ");
    push_dec(&mut l, frame_len);
    l.append(";");
    proof {
        assert(l@ =~= "const FRAME_SIZE: usize = "@ + dec_str(a.spec_frame_len() as nat) + ";"@);
    }
    push_line(&mut s, l.as_str());
    let l = fmt_as_rust_array("DIFF_REGIONS_BOUNDARIES", "usize", region_bounds.as_slice());
    push_line(&mut s, l.as_str());
    let l = fmt_as_rust_array("DIFF_REGIONS", "usize", regions.as_slice());
    push_line(&mut s, l.as_str());
    let l = fmt_as_rust_array("DIFF_BYTES_BOUNDARIES", "usize", byte_bounds.as_slice());
    push_line(&mut s, l.as_str());
    let l = fmt_as_rust_array("DIFF_BYTES", "u8", wide_bytes.as_slice());
    push_line(&mut s, l.as_str());
    push_line(&mut s, "```");
    push_line(&mut s, "#### C ####");
    push_line(&mut s, "```");
    let mut l = String::new();
    l.append("#define FRAME_SIZE ");
    push_dec(&mut l, frame_len);
    proof {
        assert(l@ =~= "#define FRAME_SIZE "@ + dec_str(a.spec_frame_len() as nat));
    }
    push_line(&mut s, l.as_str());
    let l = fmt_as_c_array("diff_regions_boundaries", "uint16_t", region_bounds.as_slice());
    push_line(&mut s, l.as_str());
    let l = fmt_as_c_array("diff_regions", "uint16_t", regions.as_slice());
    push_line(&mut s, l.as_str());
    let l = fmt_as_c_array("diff_bytes_boundaries", "uint16_t", byte_bounds.as_slice());
    push_line(&mut s, l.as_str());
    let l = fmt_as_c_array("diff_bytes", "char", wide_bytes.as_slice());
    push_line(&mut s, l.as_str());
    push_line(&mut s, "```");
    let mut l = String::new();
    l.append("Total size in bytes: ");
    push_dec(&mut l, total);
    proof {
        assert(l@ =~= "Total size in bytes: "@ + dec_str(a.spec_total_size() as nat));
    }
    push_line(&mut s, l.as_str());
    proof {
        assert(s@ =~= report_text(a));
    }
    s
}

} // verus!
