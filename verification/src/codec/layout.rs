use vstd::prelude::*;

verus! {

/// The number of rows of `slice_frames` frames that `frames` frames fill,
/// the last perhaps in part.
pub open spec fn rows_of(frames: int, slice_frames: int) -> int {
    (frames + slice_frames - 1) / slice_frames
}

/// The number of frames of row `g`: `slice_frames`, but for a last row
/// that is filled in part.
pub open spec fn row_frames_of(frames: int, slice_frames: int, g: int) -> int {
    if (g + 1) * slice_frames <= frames {
        slice_frames
    } else {
        frames - g * slice_frames
    }
}

/// How the samples of a chunk are laid out: `frames` frames of `channels`
/// interleaved samples, cut into rows of `slice_frames` frames. The samples
/// of one channel in one row are a slice.
pub ghost struct Grid {
    pub channels: int,
    pub slice_frames: int,
    pub frames: int,
}

impl Grid {
    /// There is a channel, a slice holds a frame, and no count is negative.
    pub open spec fn wf(&self) -> bool {
        &&& 1 <= self.channels
        &&& 1 <= self.slice_frames
        &&& 0 <= self.frames
    }

    /// The number of samples.
    pub open spec fn samples(&self) -> int {
        self.frames * self.channels
    }

    /// The number of rows.
    pub open spec fn rows(&self) -> int {
        rows_of(self.frames, self.slice_frames)
    }

    /// The number of rows that are full.
    pub open spec fn whole_rows(&self) -> int {
        self.frames / self.slice_frames
    }

    /// The number of slices: one for each row and channel.
    pub open spec fn slices(&self) -> int {
        self.rows() * self.channels
    }

    /// The number of frames of row `g`.
    pub open spec fn row_frames(&self, g: int) -> int {
        row_frames_of(self.frames, self.slice_frames, g)
    }

    /// The index of the sample of channel `ch` in frame `f` of row `g`.
    pub open spec fn index(&self, g: int, f: int, ch: int) -> int {
        (g * self.slice_frames + f) * self.channels + ch
    }

    /// The index of the slice of channel `ch` in row `g`.
    pub open spec fn slice_index(&self, g: int, ch: int) -> int {
        g * self.channels + ch
    }

    /// The row of the sample at index `k`.
    pub open spec fn row_at(&self, k: int) -> int {
        (k / self.channels) / self.slice_frames
    }

    /// The frame within its row of the sample at index `k`.
    pub open spec fn frame_at(&self, k: int) -> int {
        (k / self.channels) % self.slice_frames
    }

    /// The channel of the sample at index `k`.
    pub open spec fn channel_at(&self, k: int) -> int {
        k % self.channels
    }

    /// The index of the slice that holds the sample at index `k`.
    pub open spec fn slice_at(&self, k: int) -> int {
        self.slice_index(self.row_at(k), self.channel_at(k))
    }

    /// Whether the sample at index `k` comes before frame `f` of channel
    /// `ch` in row `g`, going row by row and, in a row, channel by channel.
    pub open spec fn passed(&self, k: int, g: int, ch: int, f: int) -> bool {
        let kg = self.row_at(k);
        let kc = self.channel_at(k);
        kg < g || (kg == g && (kc < ch || (kc == ch && self.frame_at(k) < f)))
    }
}

/// Rows cover the frames: every row but the last is full, and the last
/// holds at least one frame.
pub proof fn lemma_rows(grid: Grid, g: int)
    requires
        grid.wf(),
        0 <= g < grid.rows(),
    ensures
        1 <= grid.row_frames(g) <= grid.slice_frames,
        g * grid.slice_frames + grid.row_frames(g) <= grid.frames,
        0 <= g * grid.slice_frames,
        g < grid.whole_rows() <==> grid.row_frames(g) == grid.slice_frames,
        g + 1 == grid.rows() ==> g * grid.slice_frames + grid.row_frames(g) == grid.frames,
        grid.rows() <= grid.frames,
        grid.whole_rows() <= grid.rows() <= grid.whole_rows() + 1,
        !(g < grid.whole_rows()) ==> g == grid.whole_rows() && grid.row_frames(g) == grid.frames
            % grid.slice_frames,
{
    let sf = grid.slice_frames;
    let frames = grid.frames;
    let r = grid.rows();
    let x = frames + sf - 1;
    vstd::arithmetic::div_mod::lemma_fundamental_div_mod(x, sf);
    vstd::arithmetic::div_mod::lemma_mod_bound(x, sf);
    vstd::arithmetic::div_mod::lemma_fundamental_div_mod(frames, sf);
    vstd::arithmetic::div_mod::lemma_mod_bound(frames, sf);
    let m = x % sf;
    let q = frames / sf;
    let p = frames % sf;
    assert(g * sf < frames && 0 <= g * sf && (g + 1 < r ==> (g + 1) * sf <= frames) && (g + 1 == r
        ==> frames <= (g + 1) * sf) && (g + 1) * sf == g * sf + sf && r <= frames && q <= r <= q
        + 1 && (g < q ==> (g + 1) * sf <= frames) && (g >= q ==> g == q && (p > 0 ==> (g + 1) * sf
        > frames) && g * sf == frames - p)) by (nonlinear_arith)
        requires
            frames + sf - 1 == sf * r + m,
            frames == sf * q + p,
            0 <= m < sf,
            0 <= p < sf,
            0 <= g < r,
            1 <= sf,
    ;
}

/// The number of rows when there is no partial last row to count.
pub proof fn lemma_rows_count(grid: Grid)
    requires
        grid.wf(),
    ensures
        grid.rows() == grid.whole_rows() + if grid.frames % grid.slice_frames == 0 {
            0int
        } else {
            1
        },
        0 <= grid.whole_rows(),
        0 <= grid.rows() <= grid.frames,
        0 <= grid.slices(),
        grid.slices() <= grid.samples(),
{
    let sf = grid.slice_frames;
    let frames = grid.frames;
    let r = grid.rows();
    let x = frames + sf - 1;
    vstd::arithmetic::div_mod::lemma_fundamental_div_mod(x, sf);
    vstd::arithmetic::div_mod::lemma_mod_bound(x, sf);
    vstd::arithmetic::div_mod::lemma_fundamental_div_mod(frames, sf);
    vstd::arithmetic::div_mod::lemma_mod_bound(frames, sf);
    let m = x % sf;
    let q = frames / sf;
    let p = frames % sf;
    assert(0 <= q && (p == 0 ==> r == q) && (p > 0 ==> r == q + 1) && r <= frames)
        by (nonlinear_arith)
        requires
            frames + sf - 1 == sf * r + m,
            frames == sf * q + p,
            0 <= m < sf,
            0 <= p < sf,
            0 <= frames,
            1 <= sf,
    ;
    assert(0 <= r * grid.channels <= frames * grid.channels) by (nonlinear_arith)
        requires
            0 <= r <= frames,
            1 <= grid.channels,
    ;
}

/// The index of a sample splits back into its row, frame and channel, and
/// lies inside the buffer.
pub proof fn lemma_index(grid: Grid, g: int, f: int, ch: int)
    requires
        grid.wf(),
        0 <= g < grid.rows(),
        0 <= f < grid.row_frames(g),
        0 <= ch < grid.channels,
    ensures
        0 <= grid.index(g, f, ch) < grid.samples(),
        grid.row_at(grid.index(g, f, ch)) == g,
        grid.frame_at(grid.index(g, f, ch)) == f,
        grid.channel_at(grid.index(g, f, ch)) == ch,
        grid.index(g, f, ch) == (g * grid.slice_frames * grid.channels + ch) + f * grid.channels,
{
    lemma_rows(grid, g);
    let sf = grid.slice_frames;
    let c = grid.channels;
    let frame = g * sf + f;
    assert(0 <= frame * c && frame * c + c <= grid.frames * c) by (nonlinear_arith)
        requires
            0 <= frame < grid.frames,
            1 <= c,
    ;
    vstd::arithmetic::div_mod::lemma_fundamental_div_mod_converse(frame * c + ch, c, frame, ch);
    vstd::arithmetic::div_mod::lemma_fundamental_div_mod_converse(frame, sf, g, f);
    assert((g * sf + f) * c + ch == (g * sf * c + ch) + f * c) by (nonlinear_arith);
}

/// The index of a slice splits back into its row and channel, and lies
/// below the number of slices.
pub proof fn lemma_slice_index(grid: Grid, g: int, ch: int)
    requires
        grid.wf(),
        0 <= g < grid.rows(),
        0 <= ch < grid.channels,
    ensures
        0 <= grid.slice_index(g, ch) < grid.slices(),
        grid.slice_index(g, ch) / grid.channels == g,
        grid.slice_index(g, ch) % grid.channels == ch,
        g < grid.whole_rows() <==> grid.slice_index(g, ch) < grid.whole_rows() * grid.channels,
{
    let c = grid.channels;
    let q = grid.whole_rows();
    assert(0 <= g * c && g * c + c <= grid.rows() * c && (g < q ==> g * c + c <= q * c) && (g >= q
        ==> g * c >= q * c)) by (nonlinear_arith)
        requires
            0 <= g < grid.rows(),
            1 <= c,
    ;
    vstd::arithmetic::div_mod::lemma_fundamental_div_mod_converse(g * c + ch, c, g, ch);
}

/// Every sample of the buffer lies in a row, a frame of that row and a
/// channel, and its index is the one of that place.
pub proof fn lemma_coords(grid: Grid, k: int)
    requires
        grid.wf(),
        0 <= k < grid.samples(),
    ensures
        0 <= grid.row_at(k) < grid.rows(),
        0 <= grid.frame_at(k) < grid.row_frames(grid.row_at(k)),
        0 <= grid.channel_at(k) < grid.channels,
        grid.index(grid.row_at(k), grid.frame_at(k), grid.channel_at(k)) == k,
        0 <= grid.slice_at(k) < grid.slices(),
{
    let sf = grid.slice_frames;
    let c = grid.channels;
    let frame = k / c;
    let ch = k % c;
    let g = frame / sf;
    let f = frame % sf;
    vstd::arithmetic::div_mod::lemma_fundamental_div_mod(k, c);
    vstd::arithmetic::div_mod::lemma_mod_bound(k, c);
    assert(0 <= frame < grid.frames) by (nonlinear_arith)
        requires
            k == c * frame + ch,
            0 <= ch < c,
            0 <= k < grid.frames * c,
    ;
    vstd::arithmetic::div_mod::lemma_fundamental_div_mod(frame, sf);
    vstd::arithmetic::div_mod::lemma_mod_bound(frame, sf);
    let r = grid.rows();
    let x = grid.frames + sf - 1;
    vstd::arithmetic::div_mod::lemma_fundamental_div_mod(x, sf);
    vstd::arithmetic::div_mod::lemma_mod_bound(x, sf);
    let m = x % sf;
    assert(0 <= g < r) by (nonlinear_arith)
        requires
            frame == sf * g + f,
            0 <= f < sf,
            0 <= frame < grid.frames,
            grid.frames + sf - 1 == sf * r + m,
            0 <= m < sf,
            1 <= sf,
    ;
    lemma_rows(grid, g);
    assert(g * sf == sf * g && frame * c == c * frame) by (nonlinear_arith);
    lemma_slice_index(grid, g, ch);
}

} // verus!
