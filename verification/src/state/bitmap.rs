//! A picture being drawn in the inspector: its frames, each a grid of lit and dark pixels, and the frame the
//! clicks land on. Every change says whether the picture is written afterwards; writing it is the caller's work.

use vstd::prelude::*;

verus! {

/// A picture being drawn: its frames, each rows of pixels, and which frame is being drawn on.
#[derive(Debug, Clone)]
pub struct Bitmap {
    /// Every frame, each a list of rows of pixels, lit or not.
    pub frames: Vec<Vec<Vec<bool>>>,
    /// Which frame the pixels being clicked belong to.
    pub frame: usize,
}

/// One frame as the contracts read it.
pub open spec fn frame_view(f: Vec<Vec<bool>>) -> Seq<Seq<bool>> {
    f@.map_values(|row: Vec<bool>| row@)
}

/// The frames as the contracts read them.
pub open spec fn frames_view(f: Seq<Vec<Vec<bool>>>) -> Seq<Seq<Seq<bool>>> {
    f.map_values(|fr: Vec<Vec<bool>>| frame_view(fr))
}

/// A frame whose rows are all as long as its first.
pub open spec fn rectangular(f: Seq<Seq<bool>>) -> bool {
    forall|y: int| 0 <= y < f.len() ==> (#[trigger] f[y]).len() == f[0].len()
}

/// How wide a frame is: the length of its first row, or nothing for a frame with no rows.
pub open spec fn width_of(f: Seq<Seq<bool>>) -> nat {
    if f.len() > 0 { f[0].len() } else { 0 }
}

impl Bitmap {
    /// The frames as the contracts read them.
    pub open spec fn frames_v(&self) -> Seq<Seq<Seq<bool>>> {
        frames_view(self.frames@)
    }

    /// A picture in a state the editor can work on: the frame being drawn on is one it has, or it has none, and
    /// every frame's rows are as long as each other.
    pub open spec fn well_formed(&self) -> bool {
        &&& (self.frames@.len() == 0 || self.frame < self.frames@.len())
        &&& forall|i: int| 0 <= i < self.frames@.len() ==> rectangular(#[trigger] self.frames_v()[i])
    }
}

fn copy_row(row: &Vec<bool>) -> (r: Vec<bool>)
    ensures
        r@ == row@,
{
    let mut out: Vec<bool> = Vec::new();
    let mut i: usize = 0;
    while i < row.len()
        invariant
            i <= row.len(),
            out@ == row@.subrange(0, i as int),
        decreases row.len() - i,
    {
        out.push(row[i]);
        i += 1;
        proof {
            assert(out@ =~= row@.subrange(0, i as int));
        }
    }
    proof {
        assert(row@.subrange(0, row@.len() as int) =~= row@);
    }
    out
}

fn copy_frame(frame: &Vec<Vec<bool>>) -> (r: Vec<Vec<bool>>)
    ensures
        frame_view(r) == frame_view(*frame),
{
    let mut out: Vec<Vec<bool>> = Vec::new();
    let mut i: usize = 0;
    while i < frame.len()
        invariant
            i <= frame.len(),
            out@.len() == i,
            forall|k: int| 0 <= k < i ==> (#[trigger] out@[k])@ == frame@[k]@,
        decreases frame.len() - i,
    {
        out.push(copy_row(&frame[i]));
        i += 1;
    }
    proof {
        assert(frame_view(out) =~= frame_view(*frame));
    }
    out
}

/// A frame with one pixel set.
pub open spec fn with_pixel(f: Seq<Seq<bool>>, x: int, y: int, lit: bool) -> Seq<Seq<bool>> {
    f.update(y, f[y].update(x, lit))
}

/// A frame resized: `h` rows of `w` pixels, each the pixel that was there when there was one, or dark.
pub open spec fn resized(f: Seq<Seq<bool>>, w: nat, h: nat) -> Seq<Seq<bool>> {
    Seq::new(
        h,
        |y: int|
            Seq::new(
                w,
                |x: int| if y < f.len() && x < f[y].len() { f[y][x] } else { false },
            ),
    )
}

/// A number held between two bounds.
pub open spec fn clamp_nat(v: nat, lo: nat, hi: nat) -> nat {
    if v < lo { lo } else if v > hi { hi } else { v }
}

impl Bitmap {
    /// Light or clear one pixel of the frame being drawn on; says whether the picture is written, which it is
    /// when the pixel is inside the frame.
    pub fn set_pixel(&mut self, x: usize, y: usize, lit: bool) -> (r: bool)
        requires
            old(self).well_formed(),
        ensures
            final(self).frame == old(self).frame,
            final(self).well_formed(),
            ({
                let old_f = old(self).frames_v();
                let at = old(self).frame as int;
                if at < old_f.len() && y < old_f[at].len() && x < width_of(old_f[at]) {
                    r && final(self).frames_v() == old_f.update(at, with_pixel(old_f[at], x as int, y as int, lit))
                } else {
                    !r && final(self).frames_v() == old_f
                }
            }),
    {
        let ghost old_f = self.frames_v();
        if self.frame >= self.frames.len() {
            return false;
        }
        let h = self.frames[self.frame].len();
        let w = if h > 0 { self.frames[self.frame][0].len() } else { 0 };
        if x >= w || y >= h {
            return false;
        }
        proof {
            assert(old_f[self.frame as int] == frame_view(self.frames@[self.frame as int]));
            assert(rectangular(old_f[self.frame as int]));
            assert(old_f[self.frame as int][y as int] == self.frames@[self.frame as int]@[y as int]@);
        }
        let mut frame = copy_frame(&self.frames[self.frame]);
        let mut row = copy_row(&frame[y]);
        row.set(x, lit);
        frame.set(y, row);
        let ghost fv = frame_view(frame);
        self.frames.set(self.frame, frame);
        proof {
            let at = self.frame as int;
            assert(fv =~= with_pixel(old_f[at], x as int, y as int, lit));
            assert(self.frames_v() =~= old_f.update(at, fv));
            assert forall|i: int| 0 <= i < self.frames@.len() implies rectangular(#[trigger] self.frames_v()[i]) by {
                if i != at {
                    assert(self.frames_v()[i] == old_f[i]);
                } else {
                    assert(rectangular(old_f[at]));
                }
            }
        }
        true
    }

    /// Which frame the pixels being clicked belong to, counting round when it is past the last.
    pub fn set_frame(&mut self, at: usize)
        requires
            old(self).well_formed(),
        ensures
            final(self).frames == old(self).frames,
            final(self).frame == if old(self).frames@.len() == 0 {
                old(self).frame as int
            } else {
                at as int % old(self).frames@.len() as int
            },
            final(self).well_formed(),
    {
        if self.frames.len() == 0 {
            return;
        }
        let ghost before = self.frames_v();
        self.frame = at % self.frames.len();
        proof {
            assert(self.frames_v() == before);
            assert(self.frame < self.frames@.len());
        }
    }

    /// Another frame, a copy of the one being drawn on, put after it and drawn on next, because a sprite is
    /// usually a change to the one before it; says whether the picture is written.
    pub fn add_frame(&mut self) -> (r: bool)
        requires
            old(self).well_formed(),
            old(self).frames@.len() < usize::MAX,
        ensures
            final(self).well_formed(),
            r == (old(self).frames@.len() > 0),
            r ==> final(self).frames_v() == old(self).frames_v().insert(
                old(self).frame + 1,
                old(self).frames_v()[old(self).frame as int],
            ) && final(self).frame == old(self).frame + 1,
            !r ==> final(self).frames_v() == old(self).frames_v() && final(self).frame == old(self).frame,
    {
        let ghost old_f = self.frames_v();
        if self.frame >= self.frames.len() {
            return false;
        }
        let copy = copy_frame(&self.frames[self.frame]);
        let at = self.frame + 1;
        self.frames.insert(at, copy);
        self.frame = at;
        proof {
            assert(self.frames_v() =~= old_f.insert(at as int, old_f[at - 1]));
            assert forall|i: int| 0 <= i < self.frames@.len() implies rectangular(#[trigger] self.frames_v()[i]) by {
                if i < at {
                    assert(self.frames_v()[i] == old_f[i]);
                } else if i == at {
                    assert(self.frames_v()[i] == old_f[at - 1]);
                } else {
                    assert(self.frames_v()[i] == old_f[i - 1]);
                }
            }
        }
        true
    }

    /// Take the frame being drawn on away, and draw on the one after it, or the last. A picture needs one frame,
    /// so the last one cannot go; says whether the picture is written.
    pub fn remove_frame(&mut self) -> (r: bool)
        requires
            old(self).well_formed(),
        ensures
            final(self).well_formed(),
            r == (old(self).frames@.len() > 1),
            r ==> final(self).frames_v() == old(self).frames_v().remove(old(self).frame as int)
                && final(self).frame == (if old(self).frame < old(self).frames@.len() - 1 {
                old(self).frame as int
            } else {
                old(self).frames@.len() - 2
            }),
            !r ==> final(self).frames_v() == old(self).frames_v() && final(self).frame == old(self).frame,
    {
        let ghost old_f = self.frames_v();
        if self.frames.len() <= 1 {
            return false;
        }
        self.frames.remove(self.frame);
        if self.frame >= self.frames.len() {
            self.frame = self.frames.len() - 1;
        }
        proof {
            let at = old(self).frame as int;
            assert(self.frames_v() =~= old_f.remove(at));
            assert forall|i: int| 0 <= i < self.frames@.len() implies rectangular(#[trigger] self.frames_v()[i]) by {
                if i < at {
                    assert(self.frames_v()[i] == old_f[i]);
                } else {
                    assert(self.frames_v()[i] == old_f[i + 1]);
                }
            }
        }
        true
    }

    /// Change the size of the picture, from one to thirty-two pixels each way, keeping the pixels that fit in
    /// every frame, so an animation stays one size.
    pub fn set_size(&mut self, w: usize, h: usize)
        requires
            old(self).well_formed(),
        ensures
            final(self).frame == old(self).frame,
            final(self).well_formed(),
            final(self).frames_v() == old(self).frames_v().map_values(
                |f: Seq<Seq<bool>>| resized(f, clamp_nat(w as nat, 1, 32), clamp_nat(h as nat, 1, 32)),
            ),
    {
        let w: usize = if w < 1 { 1 } else if w > 32 { 32 } else { w };
        let h: usize = if h < 1 { 1 } else if h > 32 { 32 } else { h };
        let ghost old_f = self.frames_v();
        let mut out: Vec<Vec<Vec<bool>>> = Vec::new();
        let mut i: usize = 0;
        while i < self.frames.len()
            invariant
                old_f == self.frames_v(),
                i <= self.frames.len(),
                out@.len() == i,
                forall|k: int| 0 <= k < i ==> frame_view(#[trigger] out@[k]) == resized(old_f[k], w as nat, h as nat),
            decreases self.frames.len() - i,
        {
            let frame = &self.frames[i];
            let mut rows: Vec<Vec<bool>> = Vec::new();
            let mut y: usize = 0;
            while y < h
                invariant
                    i < self.frames.len(),
                    frame == &self.frames[i as int],
                    old_f == self.frames_v(),
                    y <= h,
                    rows@.len() == y,
                    forall|k: int| 0 <= k < y ==> (#[trigger] rows@[k])@ == resized(old_f[i as int], w as nat, h as nat)[k],
                decreases h - y,
            {
                let mut row: Vec<bool> = Vec::new();
                let mut x: usize = 0;
                while x < w
                    invariant
                        i < self.frames.len(),
                        frame == &self.frames[i as int],
                        old_f == self.frames_v(),
                        y < h,
                        x <= w,
                        row@.len() == x,
                        forall|k: int| 0 <= k < x ==> #[trigger] row@[k] == resized(old_f[i as int], w as nat, h as nat)[y as int][k],
                    decreases w - x,
                {
                    let lit = if y < frame.len() && x < frame[y].len() { frame[y][x] } else { false };
                    proof {
                        assert(old_f[i as int] == frame_view(*frame));
                        if y < frame.len() {
                            assert(old_f[i as int][y as int] == frame@[y as int]@);
                        }
                    }
                    row.push(lit);
                    x += 1;
                }
                proof {
                    assert(row@ =~= resized(old_f[i as int], w as nat, h as nat)[y as int]);
                }
                rows.push(row);
                y += 1;
            }
            proof {
                assert(frame_view(rows) =~= resized(old_f[i as int], w as nat, h as nat));
            }
            out.push(rows);
            i += 1;
        }
        self.frames = out;
        proof {
            let want = old_f.map_values(|f: Seq<Seq<bool>>| resized(f, w as nat, h as nat));
            assert(self.frames_v() =~= want);
            assert forall|k: int| 0 <= k < self.frames@.len() implies rectangular(#[trigger] self.frames_v()[k]) by {
                let f = self.frames_v()[k];
                assert(f == resized(old_f[k], w as nat, h as nat));
                assert forall|y: int| 0 <= y < f.len() implies (#[trigger] f[y]).len() == f[0].len() by {}
            }
        }
    }
}

impl Bitmap {
    /// What a picture no file has yet starts as: one blank frame of 8 by 8, drawn on, so a name that does not
    /// exist yet is something to draw rather than a file to go and write.
    pub fn blank() -> (r: Bitmap)
        ensures
            r.well_formed(),
            r.frame == 0,
            r.frames_v() == seq![resized(Seq::empty(), 8, 8)],
    {
        let mut rows: Vec<Vec<bool>> = Vec::new();
        let mut y: usize = 0;
        while y < 8
            invariant
                y <= 8,
                rows@.len() == y,
                forall|k: int| 0 <= k < y ==> (#[trigger] rows@[k])@ == Seq::new(8, |x: int| false),
            decreases 8 - y,
        {
            let mut row: Vec<bool> = Vec::new();
            let mut x: usize = 0;
            while x < 8
                invariant
                    x <= 8,
                    row@.len() == x,
                    forall|k: int| 0 <= k < x ==> row@[k] == false,
                decreases 8 - x,
            {
                row.push(false);
                x += 1;
            }
            proof {
                assert(row@ =~= Seq::new(8, |x: int| false));
            }
            rows.push(row);
            y += 1;
        }
        proof {
            let want = resized(Seq::empty(), 8, 8);
            assert forall|y: int| 0 <= y < 8 implies #[trigger] frame_view(rows)[y] == want[y] by {
                assert(want[y] =~= Seq::new(8, |x: int| false));
            }
            assert(frame_view(rows) =~= want);
        }
        let mut frames: Vec<Vec<Vec<bool>>> = Vec::new();
        frames.push(rows);
        let b = Bitmap { frames, frame: 0 };
        proof {
            assert(b.frames_v() =~= seq![resized(Seq::empty(), 8, 8)]);
            assert forall|i: int| 0 <= i < b.frames@.len() implies rectangular(#[trigger] b.frames_v()[i]) by {
                let f = b.frames_v()[i];
                assert forall|y: int| 0 <= y < f.len() implies (#[trigger] f[y]).len() == f[0].len() by {}
            }
        }
        b
    }

    /// The picture's size as it is written: the first frame's width and height, or nothing for a picture with
    /// no frames.
    pub fn size(&self) -> (r: (usize, usize))
        ensures
            r.0 == if self.frames_v().len() > 0 {
                width_of(self.frames_v()[0]) as int
            } else {
                0
            },
            r.1 == if self.frames_v().len() > 0 {
                self.frames_v()[0].len() as int
            } else {
                0
            },
    {
        if self.frames.len() == 0 {
            return (0, 0);
        }
        let first = &self.frames[0];
        proof {
            assert(self.frames_v()[0] == frame_view(*first));
        }
        let h = first.len();
        let w = if h > 0 {
            first[0].len()
        } else {
            0
        };
        (w, h)
    }
}

/// What a picture with no name is told: the name is what a widget asks for.
pub open spec fn bitmap_name_problem(name: Seq<char>) -> Option<Seq<char>> {
    if crate::text::trimmed(name).len() == 0 {
        Some("a bitmap needs a name: it is what a widget asks for"@)
    } else {
        None
    }
}

/// Why a picture cannot be written under this name, or nothing when it can.
pub fn bitmap_name_check(name: &str) -> (r: Option<String>)
    ensures
        r matches Some(p) ==> bitmap_name_problem(name@) == Some(p@),
        r is None ==> bitmap_name_problem(name@) is None,
{
    if crate::text::is_blank(name) {
        Some(crate::text::owned("a bitmap needs a name: it is what a widget asks for"))
    } else {
        None
    }
}

/// Adding a frame and taking it away again leaves the picture's frames as they were.
pub proof fn a_frame_added_and_taken_away_leaves_the_frames(frames: Seq<Seq<Seq<bool>>>, at: int)
    requires
        0 <= at < frames.len(),
    ensures
        frames.insert(at + 1, frames[at]).remove(at + 1) == frames,
{
    assert(frames.insert(at + 1, frames[at]).remove(at + 1) =~= frames);
}

} // verus!
