//! Small byte-level helpers independent of the codec.

use vstd::prelude::*;
use vstd::string::StringExecFns;

verus! {

/// The lower-case hexadecimal digit for a value below sixteen.
pub open spec fn spec_hex_digit(n: u8) -> char {
    if n == 0 {
        '0'
    } else if n == 1 {
        '1'
    } else if n == 2 {
        '2'
    } else if n == 3 {
        '3'
    } else if n == 4 {
        '4'
    } else if n == 5 {
        '5'
    } else if n == 6 {
        '6'
    } else if n == 7 {
        '7'
    } else if n == 8 {
        '8'
    } else if n == 9 {
        '9'
    } else if n == 10 {
        'a'
    } else if n == 11 {
        'b'
    } else if n == 12 {
        'c'
    } else if n == 13 {
        'd'
    } else if n == 14 {
        'e'
    } else {
        'f'
    }
}

/// The hexadecimal rendering of a byte string, two digits per byte.
pub open spec fn spec_hex(s: Seq<u8>) -> Seq<char>
    decreases s.len(),
{
    if s.len() == 0 {
        Seq::empty()
    } else {
        spec_hex(s.drop_last()) + seq![
            spec_hex_digit(s.last() / 16),
            spec_hex_digit(s.last() % 16),
        ]
    }
}

fn hex_digit_str(n: u8) -> (s: &'static str)
    requires
        n < 16,
    ensures
        s@ == seq![spec_hex_digit(n)],
{
    proof {
        reveal_strlit("0");
        reveal_strlit("1");
        reveal_strlit("2");
        reveal_strlit("3");
        reveal_strlit("4");
        reveal_strlit("5");
        reveal_strlit("6");
        reveal_strlit("7");
        reveal_strlit("8");
        reveal_strlit("9");
        reveal_strlit("a");
        reveal_strlit("b");
        reveal_strlit("c");
        reveal_strlit("d");
        reveal_strlit("e");
        reveal_strlit("f");
    }
    match n {
        0 => "0",
        1 => "1",
        2 => "2",
        3 => "3",
        4 => "4",
        5 => "5",
        6 => "6",
        7 => "7",
        8 => "8",
        9 => "9",
        10 => "a",
        11 => "b",
        12 => "c",
        13 => "d",
        14 => "e",
        _ => "f",
    }
}

/// Render `data` as lower-case hexadecimal, two digits per byte.  The bound
/// on the input keeps the output within the small fixed budget this helper
/// always had.
pub fn to_hex_string(data: &[u8]) -> (r: String)
    requires
        data@.len() <= 512,
    ensures
        r@ == spec_hex(data@),
{
    let mut r = String::from_str("");
    let mut i: usize = 0;
    proof {
        reveal_strlit("");
        assert(data@.take(0) =~= Seq::<u8>::empty());
        assert(r@ =~= Seq::<char>::empty());
    }
    while i < data.len()
        invariant
            i <= data@.len(),
            r@ == spec_hex(data@.take(i as int)),
        decreases data@.len() - i,
    {
        let b = data[i];
        r.append(hex_digit_str(b / 16));
        r.append(hex_digit_str(b % 16));
        i = i + 1;
        proof {
            assert(data@.take(i as int).drop_last() =~= data@.take(i - 1));
            assert(data@.take(i as int).last() == data@[i - 1]);
        }
    }
    proof {
        assert(data@.take(data@.len() as int) =~= data@);
    }
    r
}

/// Replace every non-ASCII byte (any byte above 127) with `?`, in place.
pub fn convert_to_lossy_utf8(input: &mut Vec<u8>)
    ensures
        final(input)@.len() == old(input)@.len(),
        forall|i: int|
            0 <= i < old(input)@.len() ==> final(input)@[i] == (if old(input)@[i] < 128 {
                old(input)@[i]
            } else {
                63u8
            }),
{
    let mut i: usize = 0;
    while i < input.len()
        invariant
            i <= input@.len() == old(input)@.len(),
            forall|j: int| i <= j < input@.len() ==> input@[j] == old(input)@[j],
            forall|j: int|
                0 <= j < i ==> input@[j] == (if old(input)@[j] < 128 {
                    old(input)@[j]
                } else {
                    63u8
                }),
        decreases input@.len() - i,
    {
        if input[i] >= 128 {
            input[i] = 63u8;
        }
        i = i + 1;
    }
}

} // verus!
