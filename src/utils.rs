use vstd::prelude::*;
use vstd::string::StrSliceExecFns;

verus! {

/// A point on an integer grid.
#[derive(PartialEq, Eq, Hash, Clone, Copy, Debug, Structural)]
pub struct PointT {
    pub x: i64,
    pub y: i64,
}

impl View for PointT {
    type V = (int, int);

    open spec fn view(&self) -> (int, int) {
        (self.x as int, self.y as int)
    }
}

impl PointT {
    /// Component-wise sum.
    pub fn add(self, rhs: PointT) -> (r: PointT)
        requires
            i64::MIN <= self.x + rhs.x <= i64::MAX,
            i64::MIN <= self.y + rhs.y <= i64::MAX,
        ensures
            r@ == (self@.0 + rhs@.0, self@.1 + rhs@.1),
    {
        PointT { x: self.x + rhs.x, y: self.y + rhs.y }
    }

    /// Component-wise difference.
    pub fn sub(self, rhs: PointT) -> (r: PointT)
        requires
            i64::MIN <= self.x - rhs.x <= i64::MAX,
            i64::MIN <= self.y - rhs.y <= i64::MAX,
        ensures
            r@ == (self@.0 - rhs@.0, self@.1 - rhs@.1),
    {
        PointT { x: self.x - rhs.x, y: self.y - rhs.y }
    }
}

/// The value as a `u64`, or `None` where it does not fit.
pub open spec fn fit(n: nat) -> Option<u64> {
    if n <= u64::MAX {
        Some(n as u64)
    } else {
        None
    }
}

/// The characters of `s`, in order.
pub fn chars_of(s: &str) -> (r: Vec<char>)
    ensures
        r@ == s@,
{
    let n = s.unicode_len();
    let mut r: Vec<char> = Vec::new();
    let mut i: usize = 0;
    while i < n
        invariant
            0 <= i <= n,
            n == s@.len(),
            r@ =~= s@.take(i as int),
        decreases n - i,
    {
        r.push(s.get_char(i));
        i += 1;
    }
    assert(s@.take(n as int) =~= s@);
    r
}

impl PointT {
    /// Both coordinates scaled by `k`.
    pub fn mul(self, k: i64) -> (r: PointT)
        requires
            i64::MIN <= self.x * k <= i64::MAX,
            i64::MIN <= self.y * k <= i64::MAX,
        ensures
            r@ == (self@.0 * k, self@.1 * k),
    {
        PointT { x: self.x * k, y: self.y * k }
    }

    /// The Manhattan distance between two points.
    pub fn distance(&self, other: &PointT) -> (r: i64)
        requires
            -0x2000_0000_0000_0000 <= self.x < 0x2000_0000_0000_0000,
            -0x2000_0000_0000_0000 <= self.y < 0x2000_0000_0000_0000,
            -0x2000_0000_0000_0000 <= other.x < 0x2000_0000_0000_0000,
            -0x2000_0000_0000_0000 <= other.y < 0x2000_0000_0000_0000,
        ensures
            r == manhattan(self@, other@),
    {
        let dx = self.x - other.x;
        let dy = self.y - other.y;
        let ax = if dx < 0 {
            -dx
        } else {
            dx
        };
        let ay = if dy < 0 {
            -dy
        } else {
            dy
        };
        ax + ay
    }

    /// The points at Manhattan distance `distance` from this one, four per step
    /// `d` from 0 up to `distance` (exclusive): `(x + d, y + distance - d)`,
    /// `(x + distance - d, y - d)`, `(x - d, y - (distance - d))` and
    /// `(x - (distance - d), y + d)`.
    pub fn get_points_with_distance(&self, distance: i64) -> (r: Vec<PointT>)
        requires
            distance > 0 ==> {
                &&& i64::MIN <= self.x - distance
                &&& self.x + distance <= i64::MAX
                &&& i64::MIN <= self.y - distance
                &&& self.y + distance <= i64::MAX
            },
        ensures
            r@.len() == if distance > 0 { 4 * distance } else { 0 },
            forall|d: int|
                0 <= d < distance ==> {
                    &&& (#[trigger] r@[4 * d])@ == (self@.0 + d, self@.1 + (distance - d))
                    &&& r@[4 * d + 1]@ == (self@.0 + (distance - d), self@.1 - d)
                    &&& r@[4 * d + 2]@ == (self@.0 - d, self@.1 - (distance - d))
                    &&& r@[4 * d + 3]@ == (self@.0 - (distance - d), self@.1 + d)
                },
    {
        let mut ret: Vec<PointT> = Vec::new();
        let mut d: i64 = 0;
        while d < distance
            invariant
                0 <= d,
                d <= distance || d == 0,
                distance > 0 ==> {
                    &&& i64::MIN <= self.x - distance
                    &&& self.x + distance <= i64::MAX
                    &&& i64::MIN <= self.y - distance
                    &&& self.y + distance <= i64::MAX
                },
                ret@.len() == 4 * d,
                forall|e: int|
                    0 <= e < d ==> {
                        &&& (#[trigger] ret@[4 * e])@ == (self@.0 + e, self@.1 + (distance - e))
                        &&& ret@[4 * e + 1]@ == (self@.0 + (distance - e), self@.1 - e)
                        &&& ret@[4 * e + 2]@ == (self@.0 - e, self@.1 - (distance - e))
                        &&& ret@[4 * e + 3]@ == (self@.0 - (distance - e), self@.1 + e)
                    },
            decreases distance - d,
        {
            let ghost before = ret@;
            ret.push(PointT { x: self.x + d, y: self.y + (distance - d) });
            ret.push(PointT { x: self.x + (distance - d), y: self.y - d });
            ret.push(PointT { x: self.x - d, y: self.y - (distance - d) });
            ret.push(PointT { x: self.x - (distance - d), y: self.y + d });
            assert forall|e: int| 0 <= e < d + 1 implies {
                &&& (#[trigger] ret@[4 * e])@ == (self@.0 + e, self@.1 + (distance - e))
                &&& ret@[4 * e + 1]@ == (self@.0 + (distance - e), self@.1 - e)
                &&& ret@[4 * e + 2]@ == (self@.0 - e, self@.1 - (distance - e))
                &&& ret@[4 * e + 3]@ == (self@.0 - (distance - e), self@.1 + e)
            } by {
                if e < d {
                    assert(ret@[4 * e] == before[4 * e]);
                    assert(ret@[4 * e + 1] == before[4 * e + 1]);
                    assert(ret@[4 * e + 2] == before[4 * e + 2]);
                    assert(ret@[4 * e + 3] == before[4 * e + 3]);
                }
            }
            d += 1;
        }
        ret
    }
}

/// The Manhattan distance between two cells.
pub open spec fn manhattan(a: (int, int), b: (int, int)) -> int {
    (if a.0 >= b.0 { a.0 - b.0 } else { b.0 - a.0 }) + (if a.1 >= b.1 { a.1 - b.1 } else { b.1 - a.1 })
}

/// An axis-aligned rectangle: its corner, width and height.
#[derive(PartialEq, Eq, Hash, Clone, Copy, Debug, Structural)]
pub struct RectT {
    pub x: i64,
    pub y: i64,
    pub width: i64,
    pub height: i64,
}

impl RectT {
    /// Whether `p` lies inside, the far edges excluded.
    pub fn contains_point(&self, p: &PointT) -> (r: bool)
        ensures
            r == (self.x <= p.x < self.x + self.width && self.y <= p.y < self.y + self.height),
    {
        p.x >= self.x && (p.x as i128) < (self.x as i128) + (self.width as i128) && p.y >= self.y
            && (p.y as i128) < (self.y as i128) + (self.height as i128)
    }

    /// Four rectangles of half the width and half the height (rounded toward
    /// zero): at the corner, at `width - half_width` across, at
    /// `height - half_height` down, and at both.
    pub fn get_quadrants(&self) -> (r: [RectT; 4])
        requires
            self.width >= 0,
            self.height >= 0,
        ensures
            ({
                let hw = (self.width / 2) as i64;
                let hh = (self.height / 2) as i64;
                &&& r[0] == RectT { x: self.x, y: self.y, width: hw, height: hh }
                &&& r[1] == RectT { x: (self.width - hw) as i64, y: self.y, width: hw, height: hh }
                &&& r[2] == RectT { x: self.x, y: (self.height - hh) as i64, width: hw, height: hh }
                &&& r[3] == RectT {
                    x: (self.width - hw) as i64,
                    y: (self.height - hh) as i64,
                    width: hw,
                    height: hh,
                }
            }),
    {
        let half_width = self.width / 2;
        let half_height = self.height / 2;
        [
            RectT { x: self.x, y: self.y, width: half_width, height: half_height },
            RectT { x: self.width - half_width, y: self.y, width: half_width, height: half_height },
            RectT { x: self.x, y: self.height - half_height, width: half_width, height: half_height },
            RectT {
                x: self.width - half_width,
                y: self.height - half_height,
                width: half_width,
                height: half_height,
            },
        ]
    }
}

/// A buffer that keeps the last `COUNT` items pushed into it.
pub struct RingBuffer<T, const COUNT: usize> {
    buffer: Vec<T>,
    start: usize,
}

impl<T: Copy, const COUNT: usize> RingBuffer<T, COUNT> {
    /// The items held, oldest first.
    pub closed spec fn items(&self) -> Seq<T> {
        self.buffer@.skip(self.start as int) + self.buffer@.take(self.start as int)
    }

    pub closed spec fn wf(&self) -> bool {
        &&& COUNT > 0
        &&& self.buffer@.len() <= COUNT
        &&& self.buffer@.len() < COUNT ==> self.start == 0
        &&& self.start < COUNT
        &&& self.buffer@.len() == COUNT || self.start == 0
    }

    /// An empty buffer.
    pub fn new() -> (r: Self)
        requires
            COUNT > 0,
        ensures
            r.wf(),
            r.items() == Seq::<T>::empty(),
    {
        let r = RingBuffer { buffer: Vec::new(), start: 0 };
        assert(r.items() =~= Seq::<T>::empty());
        r
    }

    /// Adds `item` as the newest; once `COUNT` items are held, the oldest goes.
    pub fn push(&mut self, item: T)
        requires
            old(self).wf(),
        ensures
            final(self).wf(),
            final(self).items() == if old(self).items().len() < COUNT {
                old(self).items().push(item)
            } else {
                old(self).items().drop_first().push(item)
            },
    {
        let ghost before = self.items();
        if self.buffer.len() < COUNT {
            self.buffer.push(item);
            assert(self.items() =~= before.push(item));
        } else {
            let ghost old_buf = self.buffer@;
            let s = self.start;
            self.buffer.set(s, item);
            self.start = if s + 1 == COUNT {
                0
            } else {
                s + 1
            };
            assert(self.items() =~= before.drop_first().push(item)) by {
                let n = COUNT as int;
                assert(before.len() == n);
                assert forall|k: int| 0 <= k < n implies #[trigger] self.items()[k] == before.drop_first().push(item)[k] by {
                    if k < n - 1 {
                        assert(before.drop_first()[k] == before[k + 1]);
                        if s + 1 + k < n {
                            assert(before[k + 1] == old_buf[s + 1 + k]);
                        } else {
                            assert(before[k + 1] == old_buf[s + 1 + k - n]);
                        }
                    }
                }
            }
        }
    }

    /// The items held, oldest first.
    pub fn get(&self) -> (r: Vec<T>)
        requires
            self.wf(),
        ensures
            r@ == self.items(),
    {
        let mut r: Vec<T> = Vec::new();
        let n = self.buffer.len();
        let mut k: usize = 0;
        while k < n
            invariant
                self.wf(),
                n == self.buffer@.len(),
                0 <= k <= n,
                r@ =~= self.items().take(k as int),
            decreases n - k,
        {
            let idx = if k < n - self.start {
                self.start + k
            } else {
                k - (n - self.start)
            };
            r.push(self.buffer[idx]);
            k += 1;
        }
        assert(self.items().take(n as int) =~= self.items());
        r
    }

    /// How many items are held: the pushes so far, at most `COUNT`.
    pub fn len(&self) -> (r: usize)
        requires
            self.wf(),
        ensures
            r == self.items().len(),
    {
        self.buffer.len()
    }
}

} // verus!
