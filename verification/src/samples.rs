//! Small standalone exercises: arithmetic, slices, strings and simple
//! struct and trait shapes, each carried to a full contract.

use vstd::prelude::*;
use vstd::arithmetic::div_mod::lemma_basic_div;
use vstd::arithmetic::div_mod::lemma_div_by_self;
use vstd::arithmetic::div_mod::lemma_div_is_ordered_by_denominator;
use vstd::arithmetic::div_mod::lemma_div_nonincreasing;
use vstd::math::abs;
use vstd::slice::slice_subrange;
use vstd::string::StringExecFns;

verus! {

/// The sum of two machine integers.
pub fn add(x: i32, y: i32) -> (r: i32)
    requires
        i32::MIN <= x + y <= i32::MAX,
    ensures
        r == x + y,
{
    x + y
}

/// The quotient that machine division computes: the magnitudes are
/// divided and the sign follows the operands; it rounds toward zero,
/// where `/` on `int` is Euclidean.
pub open spec fn quot(x: int, y: int) -> int {
    let q = abs(x) as int / abs(y) as int;
    if (x >= 0) == (y >= 0) {
        q
    } else {
        -q
    }
}

/// Integer division. Division by zero and the one overflowing quotient
/// are the caller's to rule out.
pub fn div(x: i32, y: i32) -> (r: i32)
    requires
        y != 0,
        !(x == i32::MIN && y == -1),
    ensures
        r == quot(x as int, y as int),
{
    if y > 0 {
        x / y
    } else if y == i32::MIN {
        proof {
            if x == i32::MIN {
                lemma_div_by_self(0x8000_0000);
            } else {
                lemma_basic_div(abs(x as int) as int, 0x8000_0000);
            }
        }
        if x == i32::MIN {
            1
        } else {
            0
        }
    } else {
        let yp = -y;
        let q = x / yp;
        proof {
            if x >= 0 {
                lemma_div_nonincreasing(x as int, yp as int);
            } else {
                lemma_div_nonincreasing(-(x as int), yp as int);
                if x == i32::MIN {
                    lemma_div_is_ordered_by_denominator(0x8000_0000, 2, yp as int);
                }
            }
        }
        -q
    }
}

/// `x / y`, or nothing for a zero divisor.
pub fn func_ex_div_some(x: i32, y: i32) -> (r: Option<i32>)
    requires
        !(x == i32::MIN && y == -1),
    ensures
        y == 0 ==> r is None,
        y != 0 ==> (r matches Some(v) && v == quot(x as int, y as int)),
{
    let ans = if y == 0 {
        None
    } else {
        Some(div(x, y))
    };
    ans
}

/// `x / y`, or an error message for a zero divisor.
pub fn func_ex_div_result(x: i32, y: i32) -> (r: Result<i32, &'static str>)
    requires
        !(x == i32::MIN && y == -1),
    ensures
        y == 0 ==> r is Err,
        y != 0 ==> (r matches Ok(v) && v == quot(x as int, y as int)),
{
    if y == 0 {
        Err("div by zero")
    } else {
        Ok(div(x, y))
    }
}

/// Doubles every element of the array in place.
pub fn double(a: &mut [i32; 10])
    requires
        forall|i: int| 0 <= i < 10 ==> i32::MIN <= 2 * (#[trigger] old(a)[i]) <= i32::MAX,
    ensures
        forall|i: int| 0 <= i < 10 ==> final(a)[i] == 2 * old(a)[i],
{
    let mut n: usize = 0;
    while n < 10
        invariant
            n <= 10,
            forall|i: int| 0 <= i < 10 ==> i32::MIN <= 2 * (#[trigger] old(a)[i]) <= i32::MAX,
            forall|i: int| n <= i < 10 ==> a[i] == old(a)[i],
            forall|i: int| 0 <= i < n ==> a[i] == 2 * old(a)[i],
        decreases 10 - n,
    {
        a[n] = a[n] * 2;
        n += 1;
    }
}

/// Hands the first argument back.
pub fn f<T>(a: T, _b: T) -> (r: T)
    ensures
        r == a,
{
    a
}

/// The prefix of a slice, by reference.
pub fn _pick(x: &[i32], end: usize) -> (r: &[i32])
    requires
        end <= x@.len(),
    ensures
        r@ == x@.subrange(0, end as int),
{
    slice_subrange(x, 0, end)
}

/// The prefixes of two slices, by reference, with their own lifetimes.
pub fn _pick2<'a, 'b>(x: &'a [i32], y: &'b [i32], end: usize) -> (r: (&'a [i32], &'b [i32]))
    requires
        end <= x@.len(),
        end <= y@.len(),
    ensures
        r.0@ == x@.subrange(0, end as int),
        r.1@ == y@.subrange(0, end as int),
{
    (slice_subrange(x, 0, end), slice_subrange(y, 0, end))
}

/// Empties a string through a mutable reference.
pub fn myclear(x: &mut String)
    ensures
        final(x)@ == Seq::<char>::empty(),
{
    *x = String::new();
}

/// A named fruit.
pub struct Fruit {
    pub name: String,
}

impl Fruit {
    /// The fruit's name, borrowed.
    pub fn get_name(&self) -> (r: &str)
        ensures
            r@ == self.name@,
    {
        self.name.as_str()
    }
}

/// A color: the named red, or a custom 24-bit value.
pub enum Color {
    Red,
    Custom(u8, u8, u8),
}

/// One lowercase hexadecimal digit.
pub open spec fn hex_digit(n: int) -> char {
    seq!['0', '1', '2', '3', '4', '5', '6', '7', '8', '9', 'a', 'b', 'c', 'd', 'e', 'f'][n]
}

/// Two hexadecimal digits for one byte.
pub open spec fn byte_hex(b: u8) -> Seq<char> {
    seq![hex_digit(b as int / 16), hex_digit(b as int % 16)]
}

/// The CSS-style code of a color.
pub open spec fn color_code_spec(c: Color) -> Seq<char> {
    match c {
        Color::Red => "#ff0000"@,
        Color::Custom(r, g, b) => seq!['#'] + byte_hex(r) + byte_hex(g) + byte_hex(b),
    }
}

/// The string slice for one hexadecimal digit.
fn hex_str(n: u8) -> (r: &'static str)
    requires
        n < 16,
    ensures
        r@ == seq![hex_digit(n as int)],
{
    proof {
        reveal_strlit("0");
        reveal_strlit("1");
        reveal_strlit("2");
        reveal_strlit("3");
        reveal_strlit("4");
        reveal_strlit("5");
        reveal_strlit("6");
        reveal_strlit("7");
        reveal_strlit("8");
        reveal_strlit("9");
        reveal_strlit("a");
        reveal_strlit("b");
        reveal_strlit("c");
        reveal_strlit("d");
        reveal_strlit("e");
        reveal_strlit("f");
    }
    let r = match n {
        0 => "0",
        1 => "1",
        2 => "2",
        3 => "3",
        4 => "4",
        5 => "5",
        6 => "6",
        7 => "7",
        8 => "8",
        9 => "9",
        10 => "a",
        11 => "b",
        12 => "c",
        13 => "d",
        14 => "e",
        _ => "f",
    };
    proof {
        assert(r@ =~= seq![hex_digit(n as int)]);
    }
    r
}

impl Color {
    /// The CSS-style code of the color: `#` and six hexadecimal digits.
    pub fn color_code(&self) -> (r: String)
        ensures
            r@ == color_code_spec(*self),
    {
        match self {
            Color::Red => {
                let s = "#ff0000".to_owned();
                s
            },
            Color::Custom(cr, cg, cb) => {
                let mut s = String::new();
                proof {
                    reveal_strlit("#");
                }
                s.append("#");
                s.append(hex_str(*cr / 16));
                s.append(hex_str(*cr % 16));
                s.append(hex_str(*cg / 16));
                s.append(hex_str(*cg % 16));
                s.append(hex_str(*cb / 16));
                s.append(hex_str(*cb % 16));
                proof {
                    assert("#"@ =~= seq!['#']);
                    assert(s@ =~= color_code_spec(*self));
                }
                s
            },
        }
    }
}

/// A named person with an age in years.
pub struct Person {
    pub name: String,
    pub age: u8,
}

impl Person {
    /// A person with this name and age.
    pub fn new(name: String, age: u8) -> (r: Person)
        ensures
            r.name == name,
            r.age == age,
    {
        Person { name, age }
    }

    /// The age increased by `incr`, without changing the person.
    pub fn age_incr(&self, incr: u8) -> (r: u8)
        requires
            self.age + incr <= u8::MAX,
        ensures
            r == self.age + incr,
    {
        self.age + incr
    }

    /// Increases the stored age by `incr`.
    pub fn _age_incr_replace(&mut self, incr: u8)
        requires
            old(self).age + incr <= u8::MAX,
        ensures
            final(self).age == old(self).age + incr,
            final(self).name == old(self).name,
    {
        self.age += incr;
    }
}

/// Two parents, held by reference.
pub struct Parents<'a, 'b> {
    pub father: &'a Person,
    pub mother: &'b Person,
}

impl<'a, 'b> Parents<'a, 'b> {
    /// A pair of parents from two borrowed persons.
    pub fn new(father: &'a Person, mother: &'b Person) -> (r: Parents<'a, 'b>)
        ensures
            r.father == father,
            r.mother == mother,
    {
        Parents { father, mother }
    }
}

} // verus!
