//! Classification samples cut out of decoded tensors.
use vstd::prelude::*;
use crate::idx::{IdxData, Num};
use crate::Error;

verus! {

/// The pixel value of an element; elements of other variants carry none.
pub open spec fn pixel(n: Num) -> u8 {
    match n {
        Num::Unsigned(u) => u,
        _ => 0,
    }
}

/// Whether every element of `d` is an unsigned byte.
pub open spec fn all_pixels(d: Seq<Num>) -> bool {
    forall|i: int| 0 <= i < d.len() ==> #[trigger] d[i] is Unsigned
}

/// The `i`-th run of `len` elements of `d`.
pub open spec fn sample(d: Seq<Num>, i: int, len: int) -> Seq<Num> {
    d.subrange(len * i, len * (i + 1))
}

/// The upper-case hex digit of `d`, a value below 16.
pub open spec fn hex_digit(d: int) -> char {
    if d < 10 {
        (d + 48) as char
    } else {
        (d + 55) as char
    }
}

/// A pixel as two characters: its value in upper-case hex, padded on the left
/// with a space.
pub open spec fn pixel_text(v: u8) -> Seq<char> {
    if v < 16 {
        seq![' ', hex_digit(v as int)]
    } else {
        seq![hex_digit(v as int / 16), hex_digit(v as int % 16)]
    }
}

/// The pixels of a row as text, one after the other.
pub open spec fn row_text(r: Seq<u8>) -> Seq<char>
    decreases r.len(),
{
    if r.len() == 0 {
        Seq::empty()
    } else {
        row_text(r.drop_last()) + pixel_text(r.last())
    }
}

/// The rows of a grid as text, each ended by a line break.
pub open spec fn grid_text(g: Seq<Seq<u8>>) -> Seq<char>
    decreases g.len(),
{
    if g.len() == 0 {
        Seq::empty()
    } else {
        grid_text(g.drop_last()) + row_text(g.last()) + seq!['\n']
    }
}

fn hex_str(d: u8) -> (r: &'static str)
    requires
        d < 16,
    ensures
        r@ =~= seq![hex_digit(d as int)],
{
    match d {
        0 => {
            proof {
                reveal_strlit("0");
            }
            "0"
        },
        1 => {
            proof {
                reveal_strlit("1");
            }
            "1"
        },
        2 => {
            proof {
                reveal_strlit("2");
            }
            "2"
        },
        3 => {
            proof {
                reveal_strlit("3");
            }
            "3"
        },
        4 => {
            proof {
                reveal_strlit("4");
            }
            "4"
        },
        5 => {
            proof {
                reveal_strlit("5");
            }
            "5"
        },
        6 => {
            proof {
                reveal_strlit("6");
            }
            "6"
        },
        7 => {
            proof {
                reveal_strlit("7");
            }
            "7"
        },
        8 => {
            proof {
                reveal_strlit("8");
            }
            "8"
        },
        9 => {
            proof {
                reveal_strlit("9");
            }
            "9"
        },
        10 => {
            proof {
                reveal_strlit("A");
            }
            "A"
        },
        11 => {
            proof {
                reveal_strlit("B");
            }
            "B"
        },
        12 => {
            proof {
                reveal_strlit("C");
            }
            "C"
        },
        13 => {
            proof {
                reveal_strlit("D");
            }
            "D"
        },
        14 => {
            proof {
                reveal_strlit("E");
            }
            "E"
        },
        _ => {
            proof {
                reveal_strlit("F");
            }
            "F"
        },
    }
}

/// One example: a grid of pixel rows and the same pixels in one row-major run.
#[derive(Debug)]
pub struct Image {
    pub dimensions: (usize, usize),
    pub data: Vec<Vec<u8>>,
    pub data_1d: Vec<u8>,
}

impl Image {
    /// Whether this image shows the elements `d` as `rows` rows of `cols`
    /// pixels each.
    pub open spec fn shows(&self, d: Seq<Num>, rows: usize, cols: usize) -> bool {
        &&& self.dimensions == (rows, cols)
        &&& self.data_1d@ == d.map_values(|n: Num| pixel(n))
        &&& self.data@.len() == rows
        &&& forall|r: int|
            0 <= r < rows ==> (#[trigger] self.data@[r])@ == self.data_1d@.subrange(
                r * cols,
                r * cols + cols,
            )
    }

    /// The pixel rows.
    pub open spec fn rows(&self) -> Seq<Seq<u8>> {
        self.data@.map_values(|r: Vec<u8>| r@)
    }

    /// The pixel grid as text: each pixel as two upper-case hex characters,
    /// padded with a space, and a line break after each row.
    pub fn to_string(&self) -> (r: String)
        ensures
            r@ == grid_text(self.rows()),
    {
        let mut out = String::new();
        let ghost g = self.rows();
        let mut i: usize = 0;
        assert(g.take(0) =~= Seq::<Seq<u8>>::empty());
        while i < self.data.len()
            invariant
                g == self.rows(),
                i <= self.data@.len(),
                out@ == grid_text(g.take(i as int)),
            decreases self.data@.len() - i,
        {
            let row = &self.data[i];
            let ghost before = out@;
            let mut j: usize = 0;
            assert(row@.take(0) =~= Seq::<u8>::empty());
            while j < row.len()
                invariant
                    i < self.data@.len(),
                    row == self.data@[i as int],
                    j <= row@.len(),
                    out@ == before + row_text(row@.take(j as int)),
                decreases row@.len() - j,
            {
                let v = row[j];
                if v < 16 {
                    out.append(" ");
                    proof {
                        reveal_strlit(" ");
                    }
                    out.append(hex_str(v));
                } else {
                    out.append(hex_str(v / 16));
                    out.append(hex_str(v % 16));
                }
                assert(row@.take(j + 1).drop_last() =~= row@.take(j as int));
                j += 1;
                assert(out@ =~= before + row_text(row@.take(j as int)));
            }
            assert(row@.take(j as int) =~= row@);
            out.append("\n");
            proof {
                reveal_strlit("\n");
            }
            assert(g.take(i + 1).drop_last() =~= g.take(i as int));
            i += 1;
            assert(out@ =~= grid_text(g.take(i as int)));
        }
        assert(g.take(i as int) =~= g);
        out
    }

    /// The image of `x` rows and `y` columns held in `d`. Fails with
    /// `WrongSize` where `d` does not hold exactly `x * y` unsigned bytes.
    pub fn from_slice(d: &[Num], x: usize, y: usize) -> (r: Result<Image, Error>)
        ensures
            r is Ok <==> d@.len() == x * y && all_pixels(d@),
            r matches Ok(img) ==> img.shows(d@, x, y),
            r matches Err(e) ==> e == Error::WrongSize,
    {
        let n = d.len();
        match x.checked_mul(y) {
            Some(p) => {
                if p != n {
                    return Err(Error::WrongSize);
                }
            },
            None => {
                return Err(Error::WrongSize);
            },
        }
        let mut flat: Vec<u8> = Vec::new();
        let mut i: usize = 0;
        while i < n
            invariant
                n == d@.len(),
                i <= n,
                flat@ == d@.take(i as int).map_values(|m: Num| pixel(m)),
                all_pixels(d@.take(i as int)),
            decreases n - i,
        {
            match d[i] {
                Num::Unsigned(u) => {
                    flat.push(u);
                },
                _ => {
                    assert(!(d@[i as int] is Unsigned));
                    return Err(Error::WrongSize);
                },
            }
            assert(d@.take(i + 1) =~= d@.take(i as int).push(d@[i as int]));
            i += 1;
            assert(flat@ =~= d@.take(i as int).map_values(|m: Num| pixel(m)));
        }
        assert(d@.take(n as int) =~= d@);
        let mut rows: Vec<Vec<u8>> = Vec::new();
        let mut r: usize = 0;
        while r < x
            invariant
                n == x * y,
                flat@.len() == n,
                r <= x,
                rows@.len() == r,
                forall|k: int|
                    0 <= k < r ==> (#[trigger] rows@[k])@ == flat@.subrange(k * y, k * y + y),
            decreases x - r,
        {
            proof {
                assert(r * y + y <= x * y) by (nonlinear_arith)
                    requires
                        r < x,
                ;
            }
            let mut row: Vec<u8> = Vec::new();
            let mut c: usize = 0;
            while c < y
                invariant
                    n == x * y,
                    flat@.len() == n,
                    r < x,
                    r * y + y <= n,
                    c <= y,
                    row@ == flat@.subrange(r * y, r * y + c),
                decreases y - c,
            {
                row.push(flat[r * y + c]);
                c += 1;
                assert(row@ =~= flat@.subrange(r * y, r * y + c));
            }
            rows.push(row);
            r += 1;
        }
        Ok(Image { dimensions: (x, y), data: rows, data_1d: flat })
    }
}


impl IdxData {
    /// Whether this tensor holds images: three dimensions, with at least
    /// `count` images' worth of elements.
    pub open spec fn holds_images(&self, count: int) -> bool {
        &&& self.sizes@.len() == 3
        &&& count * (self.sizes@[1] * self.sizes@[2]) <= self.data@.len()
    }

    /// The elements of the `i`-th image of this tensor.
    pub open spec fn image_elems(&self, i: int) -> Seq<Num> {
        sample(self.data@, i, self.sizes@[1] * self.sizes@[2])
    }

    /// The `i`-th image of a tensor of three dimensions (count, rows, columns).
    /// Fails with `WrongSize` where the tensor has another shape, `i` is not
    /// below the count, the elements run short, or one of the image's
    /// elements is not an unsigned byte.
    pub fn image(&self, i: usize) -> (r: Result<Image, Error>)
        ensures
            r is Ok <==> self.holds_images(i + 1) && i < self.sizes@[0] && all_pixels(
                self.image_elems(i as int),
            ),
            r matches Ok(img) ==> img.shows(self.image_elems(i as int), self.sizes@[1], self.sizes@[2]),
            r matches Err(e) ==> e == Error::WrongSize,
    {
        if self.sizes.len() != 3 || i >= self.sizes[0] {
            return Err(Error::WrongSize);
        }
        let rows = self.sizes[1];
        let cols = self.sizes[2];
        let len = self.data.len();
        let res = match rows.checked_mul(cols) {
            Some(p) => p,
            None => {
                proof {
                    let q = rows * cols;
                    assert((i + 1) * q >= q) by (nonlinear_arith)
                        requires
                            q >= 0,
                    ;
                }
                return Err(Error::WrongSize);
            },
        };
        let end = match res.checked_mul(i + 1) {
            Some(p) => p,
            None => {
                assert(res * (i + 1) == (i + 1) * res) by (nonlinear_arith);
                return Err(Error::WrongSize);
            },
        };
        assert(res * (i + 1) == (i + 1) * res) by (nonlinear_arith);
        if end > len {
            return Err(Error::WrongSize);
        }
        assert(res * i + res == res * (i + 1)) by (nonlinear_arith);
        let start = end - res;
        Image::from_slice(&self.data.as_slice()[start..end], rows, cols)
    }

    /// Every image of a tensor of three dimensions (count, rows, columns), in
    /// order. Fails with `WrongSize` where `image` would fail for one of them.
    pub fn images(&self) -> (r: Result<Vec<Image>, Error>)
        ensures
            r is Ok <==> self.sizes@.len() == 3 && (self.sizes@[0] == 0 || (self.holds_images(
                self.sizes@[0] as int,
            ) && forall|i: int|
                0 <= i < self.sizes@[0] ==> all_pixels(#[trigger] self.image_elems(i)))),
            r matches Ok(v) ==> v@.len() == self.sizes@[0] && forall|i: int|
                0 <= i < v@.len() ==> (#[trigger] v@[i]).shows(
                    self.image_elems(i),
                    self.sizes@[1],
                    self.sizes@[2],
                ),
            r matches Err(e) ==> e == Error::WrongSize,
    {
        if self.sizes.len() != 3 {
            return Err(Error::WrongSize);
        }
        let count = self.sizes[0];
        let ghost q = self.sizes@[1] * self.sizes@[2];
        let mut v: Vec<Image> = Vec::new();
        let mut i: usize = 0;
        while i < count
            invariant
                self.sizes@.len() == 3,
                count == self.sizes@[0],
                q == self.sizes@[1] * self.sizes@[2],
                i <= count,
                i > 0 ==> self.holds_images(i as int),
                v@.len() == i,
                forall|k: int| 0 <= k < i ==> all_pixels(#[trigger] self.image_elems(k)),
                forall|k: int|
                    0 <= k < i ==> (#[trigger] v@[k]).shows(
                        self.image_elems(k),
                        self.sizes@[1],
                        self.sizes@[2],
                    ),
            decreases count - i,
        {
            match self.image(i) {
                Ok(img) => {
                    v.push(img);
                },
                Err(e) => {
                    proof {
                        let c = count as int;
                        assert(i * q + q <= c * q) by (nonlinear_arith)
                            requires
                                i < c,
                                q >= 0,
                        ;
                        assert((i + 1) * q == i * q + q) by (nonlinear_arith);
                    }
                    return Err(e);
                },
            }
            i += 1;
        }
        Ok(v)
    }

    /// The elements of a label tensor as class labels. Fails with `WrongSize`
    /// where one of them is not an unsigned byte.
    pub fn labels(&self) -> (r: Result<Vec<u8>, Error>)
        ensures
            r is Ok <==> all_pixels(self.data@),
            r matches Ok(v) ==> v@ == self.data@.map_values(|n: Num| pixel(n)),
            r matches Err(e) ==> e == Error::WrongSize,
    {
        let n = self.data.len();
        let mut v: Vec<u8> = Vec::new();
        let mut i: usize = 0;
        while i < n
            invariant
                n == self.data@.len(),
                i <= n,
                v@ == self.data@.take(i as int).map_values(|m: Num| pixel(m)),
                forall|k: int| 0 <= k < i ==> #[trigger] self.data@[k] is Unsigned,
            decreases n - i,
        {
            match self.data[i] {
                Num::Unsigned(u) => {
                    v.push(u);
                },
                _ => {
                    return Err(Error::WrongSize);
                },
            }
            assert(self.data@.take(i + 1) =~= self.data@.take(i as int).push(self.data@[i as int]));
            i += 1;
            assert(v@ =~= self.data@.take(i as int).map_values(|m: Num| pixel(m)));
        }
        assert(self.data@.take(n as int) =~= self.data@);
        Ok(v)
    }
}

} // verus!
