//! The text of a stroke as JSON: an object with the stroke's colour and the
//! list of its points, written without spaces.

use vstd::prelude::*;

verus! {

/// The decimal digits of `n`, most significant first.
pub open spec fn digits(n: nat) -> Seq<u8>
    decreases n,
{
    if n < 10 {
        seq![('0' as u8 + n) as u8]
    } else {
        digits(n / 10).push(('0' as u8 + n % 10) as u8)
    }
}

/// The decimal text of an integer: a minus sign before the digits of a
/// negative one.
pub open spec fn number(i: int) -> Seq<u8> {
    if i < 0 {
        seq!['-' as u8] + digits((-i) as nat)
    } else {
        digits(i as nat)
    }
}

/// `{"x":`
pub open spec fn open_point() -> Seq<u8> {
    seq!['{' as u8, '"' as u8, 'x' as u8, '"' as u8, ':' as u8]
}

/// `,"y":`
pub open spec fn mid_point() -> Seq<u8> {
    seq![',' as u8, '"' as u8, 'y' as u8, '"' as u8, ':' as u8]
}

/// `{"color":`
pub open spec fn open_stroke() -> Seq<u8> {
    seq!['{' as u8, '"' as u8, 'c' as u8, 'o' as u8, 'l' as u8, 'o' as u8, 'r' as u8, '"' as u8, ':' as u8]
}

/// `,"data":[`
pub open spec fn mid_stroke() -> Seq<u8> {
    seq![',' as u8, '"' as u8, 'd' as u8, 'a' as u8, 't' as u8, 'a' as u8, '"' as u8, ':' as u8, '[' as u8]
}

/// A point as an object with the members `x` and `y`.
pub open spec fn point_json(p: (i32, i32)) -> Seq<u8> {
    open_point() + number(p.0 as int) + mid_point() + number(p.1 as int) + seq!['}' as u8]
}

/// The points as objects, with a comma between one and the next.
pub open spec fn points_json(points: Seq<(i32, i32)>) -> Seq<u8>
    decreases points.len(),
{
    if points.len() == 0 {
        Seq::empty()
    } else if points.len() == 1 {
        point_json(points[0])
    } else {
        points_json(points.drop_last()) + seq![',' as u8] + point_json(points.last())
    }
}

/// A stroke as an object with the members `color`, a number, and `data`,
/// the array of the stroke's points.
pub open spec fn stroke_json(color: u32, points: Seq<(i32, i32)>) -> Seq<u8> {
    open_stroke() + digits(color as nat) + mid_stroke() + points_json(points) + seq![']' as u8, '}' as u8]
}

/// Appends the bytes of `text` to `out`.
fn push_bytes(out: &mut Vec<u8>, text: &[u8])
    ensures
        final(out)@ == old(out)@ + text@,
{
    let mut i: usize = 0;
    while i < text.len()
        invariant
            i <= text@.len(),
            out@ == old(out)@ + text@.take(i as int),
        decreases text@.len() - i,
    {
        out.push(text[i]);
        assert(out@ =~= old(out)@ + text@.take(i + 1));
        i += 1;
    }
    assert(text@.take(text@.len() as int) =~= text@);
}

/// Appends the decimal digits of `n` to `out`.
fn push_digits(out: &mut Vec<u8>, n: u64)
    ensures
        final(out)@ == old(out)@ + digits(n as nat),
    decreases n,
{
    if n >= 10 {
        push_digits(out, n / 10);
    }
    out.push('0' as u8 + (n % 10) as u8);
    assert(out@ =~= old(out)@ + digits(n as nat));
}

/// Appends the decimal text of `i` to `out`.
fn push_number(out: &mut Vec<u8>, i: i32)
    ensures
        final(out)@ == old(out)@ + number(i as int),
{
    if i < 0 {
        out.push('-' as u8);
        push_digits(out, (-(i as i64)) as u64);
        assert(out@ =~= old(out)@ + number(i as int));
    } else {
        push_digits(out, i as u64);
    }
}

/// Appends a point, as an object, to `out`.
fn push_point(out: &mut Vec<u8>, p: (i32, i32))
    ensures
        final(out)@ == old(out)@ + point_json(p),
{
    let open: [u8; 5] = ['{' as u8, '"' as u8, 'x' as u8, '"' as u8, ':' as u8];
    let mid: [u8; 5] = [',' as u8, '"' as u8, 'y' as u8, '"' as u8, ':' as u8];
    assert(open@ =~= open_point());
    assert(mid@ =~= mid_point());
    push_bytes(out, &open);
    push_number(out, p.0);
    push_bytes(out, &mid);
    push_number(out, p.1);
    out.push('}' as u8);
    assert(out@ =~= old(out)@ + point_json(p));
}

/// The JSON text of a stroke with the given colour and points.
pub fn stroke_text(color: u32, points: &Vec<(i32, i32)>) -> (text: Vec<u8>)
    ensures
        text@ == stroke_json(color, points@),
{
    let open: [u8; 9] = ['{' as u8, '"' as u8, 'c' as u8, 'o' as u8, 'l' as u8, 'o' as u8, 'r' as u8, '"' as u8, ':' as u8];
    let mid: [u8; 9] = [',' as u8, '"' as u8, 'd' as u8, 'a' as u8, 't' as u8, 'a' as u8, '"' as u8, ':' as u8, '[' as u8];
    assert(open@ =~= open_stroke());
    assert(mid@ =~= mid_stroke());
    let mut text: Vec<u8> = Vec::new();
    push_bytes(&mut text, &open);
    push_digits(&mut text, color as u64);
    push_bytes(&mut text, &mid);
    let ghost head = text@;
    let mut i: usize = 0;
    while i < points.len()
        invariant
            i <= points@.len(),
            text@ == head + points_json(points@.take(i as int)),
        decreases points@.len() - i,
    {
        let ghost before = text@;
        if i > 0 {
            text.push(',' as u8);
        }
        push_point(&mut text, points[i]);
        proof {
            let upto = points@.take(i + 1);
            assert(upto.drop_last() =~= points@.take(i as int));
            assert(upto.last() == points@[i as int]);
            assert(text@ =~= head + points_json(upto));
        }
        i += 1;
    }
    assert(points@.take(points@.len() as int) =~= points@);
    text.push(']' as u8);
    text.push('}' as u8);
    assert(text@ =~= open_stroke() + digits(color as nat) + mid_stroke() + points_json(points@)
        + seq![']' as u8, '}' as u8]);
    text
}

} // verus!
