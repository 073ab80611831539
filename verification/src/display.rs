//! What the display computes: RGB byte buffers, PNG encoding, the running
//! average of rendered frames, packing into 32-bit pixels and letterboxing.

use vstd::prelude::*;
use image::ImageEncoder;
use crate::RGB;

verus! {

/// The bytes of a sequence of colours: the red, green and blue channel of
/// each colour in turn.
pub open spec fn pixel_bytes(rgbs: Seq<RGB>) -> Seq<u8>
    decreases rgbs.len(),
{
    if rgbs.len() == 0 {
        seq![]
    } else {
        pixel_bytes(rgbs.drop_last()) + seq![rgbs.last().r, rgbs.last().g, rgbs.last().b]
    }
}

/// The byte buffer of a sequence of colours has three bytes per colour, in order.
pub proof fn pixel_bytes_layout(rgbs: Seq<RGB>)
    ensures
        pixel_bytes(rgbs).len() == 3 * rgbs.len(),
        forall|i: int|
            0 <= i < rgbs.len() ==> {
                &&& #[trigger] pixel_bytes(rgbs)[3 * i] == rgbs[i].r
                &&& pixel_bytes(rgbs)[3 * i + 1] == rgbs[i].g
                &&& pixel_bytes(rgbs)[3 * i + 2] == rgbs[i].b
            },
    decreases rgbs.len(),
{
    if rgbs.len() > 0 {
        let init = rgbs.drop_last();
        pixel_bytes_layout(init);
        assert forall|i: int| 0 <= i < rgbs.len() implies {
            &&& #[trigger] pixel_bytes(rgbs)[3 * i] == rgbs[i].r
            &&& pixel_bytes(rgbs)[3 * i + 1] == rgbs[i].g
            &&& pixel_bytes(rgbs)[3 * i + 2] == rgbs[i].b
        } by {
            if i < init.len() {
                assert(init[i] == rgbs[i]);
                assert(pixel_bytes(init)[3 * i] == init[i].r);
            }
        }
    }
}

/// Flattens colours into a byte buffer, three bytes per colour.
pub fn pixels_from_rgb(rgb_arr: &Vec<RGB>) -> (res: Vec<u8>)
    ensures
        res@ == pixel_bytes(rgb_arr@),
{
    let mut pixels: Vec<u8> = Vec::new();
    let mut i: usize = 0;
    while i < rgb_arr.len()
        invariant
            i <= rgb_arr.len(),
            pixels@ == pixel_bytes(rgb_arr@.take(i as int)),
        decreases rgb_arr.len() - i,
    {
        let c = rgb_arr[i];
        pixels.push(c.r);
        pixels.push(c.g);
        pixels.push(c.b);
        assert(rgb_arr@.take(i + 1).drop_last() =~= rgb_arr@.take(i as int));
        i = i + 1;
    }
    assert(rgb_arr@.take(i as int) =~= rgb_arr@);
    pixels
}

/// The PNG file, 8-bit RGB, that the `image` crate's PNG encoder makes of
/// `pixels` at the given size.
pub uninterp spec fn png_rgb8(pixels: Seq<u8>, width: u32, height: u32) -> Seq<u8>;

#[verifier::external_type_specification]
#[verifier::external_body]
pub struct ExImageError(image::ImageError);

/// Calls `image::codecs::png::PngEncoder::write_image` with colour type
/// `Rgb8`, writing into memory. The encoder reports an error exactly when
/// the width or the height is zero (the `png` crate's header check; writing
/// into memory cannot fail otherwise); its output depends on the pixels and
/// the size alone and is named by `png_rgb8`, not described further. The
/// encoder panics unless the buffer holds exactly three bytes per pixel,
/// which `requires` rules out.
#[verifier::external_body]
fn png_encode_rgb8(pixels: &[u8], width: u32, height: u32) -> (res: Result<Vec<u8>, image::ImageError>)
    requires
        pixels@.len() == 3 * width * height,
    ensures
        res is Ok <==> (width > 0 && height > 0),
        res matches Ok(bytes) ==> bytes@ == png_rgb8(pixels@, width, height),
{
    let mut out: Vec<u8> = Vec::new();
    let encoder = image::codecs::png::PngEncoder::new(&mut out);
    match encoder.write_image(pixels, width, height, image::ExtendedColorType::Rgb8) {
        Ok(()) => Ok(out),
        Err(e) => Err(e),
    }
}

/// Why an image could not be encoded.
#[derive(Debug, PartialEq, Eq, Structural)]
pub enum EncodeError {
    /// The PNG encoder reported an error: the image has no pixels.
    Png,
}

/// Encodes an RGB byte buffer of `w` by `h` pixels as a PNG file in memory.
pub fn encode_image(w: u32, h: u32, pixels: &[u8]) -> (res: Result<Vec<u8>, EncodeError>)
    requires
        pixels@.len() == 3 * w * h,
    ensures
        res is Ok <==> (w > 0 && h > 0),
        res matches Ok(bytes) ==> bytes@ == png_rgb8(pixels@, w, h),
        res matches Err(e) ==> e == EncodeError::Png,
{
    match png_encode_rgb8(pixels, w, h) {
        Ok(bytes) => Ok(bytes),
        Err(_) => Err(EncodeError::Png),
    }
}

/// Encodes `w` by `h` colours, row by row, as a PNG file in memory.
pub fn encode_image_from_rgb(w: u32, h: u32, rgb_arr: &Vec<RGB>) -> (res: Result<Vec<u8>, EncodeError>)
    requires
        rgb_arr@.len() == w * h,
    ensures
        res is Ok <==> (w > 0 && h > 0),
        res matches Ok(bytes) ==> bytes@ == png_rgb8(pixel_bytes(rgb_arr@), w, h),
{
    let pixels = pixels_from_rgb(rgb_arr);
    proof {
        pixel_bytes_layout(rgb_arr@);
        assert(3 * (w * h) == 3 * w * h) by (nonlinear_arith);
    }
    encode_image(w, h, pixels.as_slice())
}

} // verus!

verus! {

/// The sum, over the given frames, of the byte at position `i`.
pub open spec fn frame_total(frames: Seq<Seq<u8>>, i: int) -> int
    decreases frames.len(),
{
    if frames.len() == 0 {
        0
    } else {
        frame_total(frames.drop_last(), i) + frames.last()[i] as int
    }
}

/// A sum of `n` bytes lies between 0 and `255 * n`.
pub proof fn frame_total_bounds(frames: Seq<Seq<u8>>, i: int)
    requires
        0 <= i,
        forall|j: int| 0 <= j < frames.len() ==> i < (#[trigger] frames[j]).len(),
    ensures
        0 <= frame_total(frames, i) <= 255 * frames.len(),
    decreases frames.len(),
{
    if frames.len() > 0 {
        let init = frames.drop_last();
        assert forall|j: int| 0 <= j < init.len() implies i < (#[trigger] init[j]).len() by {
            assert(init[j] == frames[j]);
        }
        frame_total_bounds(init, i);
        let last = frames[frames.len() - 1];
        assert(i < last.len());
    }
}

/// The abstract state of a frame accumulator.
pub struct FrameView {
    pub width: u32,
    pub height: u32,
    /// Per byte of an RGB frame, the sum of that byte over the frames added.
    pub buffer: Seq<u32>,
    /// The frames added so far, in order.
    pub frames: Seq<Seq<u8>>,
    pub frame_count: u32,
    pub max_frame_count: u32,
    pub done: bool,
}

/// Sums rendered frames so that the display shows their average; at most
/// `max_frame_count` frames are rendered.
pub struct FrameAccumulator {
    width: u32,
    height: u32,
    frame_buffer: Vec<u32>,
    frame_count: u32,
    max_frame_count: u32,
    done_render: bool,
    frames: Ghost<Seq<Seq<u8>>>,
}

impl View for FrameAccumulator {
    type V = FrameView;

    closed spec fn view(&self) -> FrameView {
        FrameView {
            width: self.width,
            height: self.height,
            buffer: self.frame_buffer@,
            frames: self.frames@,
            frame_count: self.frame_count,
            max_frame_count: self.max_frame_count,
            done: self.done_render,
        }
    }
}

impl FrameAccumulator {
    /// The accumulator's invariant: the buffer holds, byte by byte, the sum of
    /// the frames added, no more frames than allowed were added, and rendering
    /// is only marked done once all of them were. It is the type's invariant:
    /// it holds of every accumulator at every moment, whatever sequence of
    /// calls made it.
    #[verifier::type_invariant]
    pub open spec fn wf(&self) -> bool {
        let v = self@;
        &&& v.buffer.len() == 3 * v.width * v.height
        &&& v.frames.len() == v.frame_count
        &&& forall|j: int| 0 <= j < v.frames.len() ==> v.buffer.len() <= #[trigger] v.frames[j].len()
        &&& forall|i: int| 0 <= i < v.buffer.len() ==> #[trigger] v.buffer[i] == frame_total(v.frames, i)
        &&& v.frame_count <= v.max_frame_count
        &&& v.done ==> v.frame_count == v.max_frame_count
    }

    /// An empty accumulator for `width` by `height` RGB frames.
    pub fn new(width: u32, height: u32, max_frame_count: u32) -> (res: FrameAccumulator)
        requires
            width * height * 3 <= u32::MAX,
        ensures
            res.wf(),
            res@.width == width,
            res@.height == height,
            res@.max_frame_count == max_frame_count,
            res@.frame_count == 0,
            res@.frames == Seq::<Seq<u8>>::empty(),
            !res@.done,
            res@.buffer == Seq::new((3 * width * height) as nat, |i: int| 0u32),
    {
        assert(width * height <= u32::MAX) by (nonlinear_arith)
            requires
                width * height * 3 <= u32::MAX,
        ;
        let n: u32 = width * height * 3;
        let mut buffer: Vec<u32> = Vec::new();
        let mut i: u32 = 0;
        while i < n
            invariant
                i <= n,
                buffer@ == Seq::new(i as nat, |k: int| 0u32),
            decreases n - i,
        {
            buffer.push(0);
            i = i + 1;
            assert(buffer@ =~= Seq::new(i as nat, |k: int| 0u32));
        }
        assert(3 * width * height == width * height * 3) by (nonlinear_arith);
        FrameAccumulator {
            width: width,
            height: height,
            frame_buffer: buffer,
            frame_count: 0,
            max_frame_count: max_frame_count,
            done_render: false,
            frames: Ghost(Seq::empty()),
        }
    }

    pub fn width(&self) -> (res: u32)
        ensures
            res == self@.width,
    {
        self.width
    }

    pub fn height(&self) -> (res: u32)
        ensures
            res == self@.height,
    {
        self.height
    }

    pub fn frame_count(&self) -> (res: u32)
        ensures
            res == self@.frame_count,
    {
        self.frame_count
    }

    pub fn max_frame_count(&self) -> (res: u32)
        ensures
            res == self@.max_frame_count,
    {
        self.max_frame_count
    }

    pub fn is_done(&self) -> (res: bool)
        ensures
            res == self@.done,
    {
        self.done_render
    }

    /// The per-byte sums of the frames added so far.
    pub fn frame_buffer(&self) -> (res: &Vec<u32>)
        ensures
            res@ == self@.buffer,
            self.wf(),
    {
        proof {
            use_type_invariant(self);
        }
        &self.frame_buffer
    }

    /// Whether another frame is to be rendered.
    pub fn wants_frame(&self) -> (res: bool)
        ensures
            res == (self@.frame_count < self@.max_frame_count),
    {
        self.frame_count < self.max_frame_count
    }

    /// Whether adding `frame` keeps every byte sum within 32 bits.
    pub open spec fn fits(&self, frame: Seq<u8>) -> bool {
        forall|i: int| 0 <= i < self@.buffer.len() ==> #[trigger] self@.buffer[i] + frame[i] <= u32::MAX
    }

    /// Fewer than 16843009 frames can always be summed in 32 bits.
    pub proof fn fits_below_limit(&self, frame: Seq<u8>)
        requires
            self.wf(),
            self@.frame_count < 16843009,
            self@.buffer.len() <= frame.len(),
        ensures
            self.fits(frame),
    {
        assert forall|i: int| 0 <= i < self@.buffer.len() implies #[trigger] self@.buffer[i] + frame[i] <= u32::MAX by {
            frame_total_bounds(self@.frames, i);
            assert(255 * self@.frames.len() + 255 <= u32::MAX);
        }
    }

    /// Adds a rendered frame to the running sums.
    pub fn add_frame(&mut self, frame: &Vec<u8>)
        requires
            old(self)@.frame_count < old(self)@.max_frame_count,
            old(self)@.buffer.len() <= frame@.len(),
            old(self).fits(frame@),
        ensures
            final(self).wf(),
            final(self)@.frames == old(self)@.frames.push(frame@),
            final(self)@.frame_count == old(self)@.frame_count + 1,
            final(self)@.buffer.len() == old(self)@.buffer.len(),
            forall|i: int|
                0 <= i < old(self)@.buffer.len() ==> #[trigger] final(self)@.buffer[i] == old(self)@.buffer[i] + frame@[i],
            final(self)@.width == old(self)@.width,
            final(self)@.height == old(self)@.height,
            final(self)@.max_frame_count == old(self)@.max_frame_count,
            final(self)@.done == old(self)@.done,
    {
        proof {
            use_type_invariant(&*self);
        }
        let ghost old_buffer = self.frame_buffer@;
        let ghost new_frames = self.frames@.push(frame@);
        let n = self.frame_buffer.len();
        let mut sums: Vec<u32> = Vec::new();
        let mut i: usize = 0;
        while i < n
            invariant
                n == old_buffer.len(),
                old_buffer == self.frame_buffer@,
                i <= n,
                n <= frame@.len(),
                sums@.len() == i,
                forall|k: int| 0 <= k < n ==> #[trigger] old_buffer[k] + frame@[k] <= u32::MAX,
                forall|k: int| 0 <= k < i ==> #[trigger] sums@[k] == old_buffer[k] + frame@[k],
            decreases n - i,
        {
            sums.push(self.frame_buffer[i] + frame[i] as u32);
            i = i + 1;
        }
        proof {
            assert forall|k: int| 0 <= k < sums@.len() implies #[trigger] sums@[k] == frame_total(new_frames, k) by {
                assert(new_frames.drop_last() =~= self.frames@);
            }
            assert forall|j: int| 0 <= j < new_frames.len() implies sums@.len() <= #[trigger] new_frames[j].len() by {
                if j < self.frames@.len() {
                    assert(new_frames[j] == self.frames@[j]);
                }
            }
        }
        *self = FrameAccumulator {
            width: self.width,
            height: self.height,
            frame_buffer: sums,
            frame_count: self.frame_count + 1,
            max_frame_count: self.max_frame_count,
            done_render: self.done_render,
            frames: Ghost(new_frames),
        };
    }

    /// Marks rendering as done once all frames were rendered; says whether
    /// this call is the one that did so.
    pub fn finish_rendering(&mut self) -> (res: bool)
        ensures
            final(self).wf(),
            res == (old(self)@.frame_count == old(self)@.max_frame_count && !old(self)@.done),
            final(self)@.done == (old(self)@.done || res),
            final(self)@.buffer == old(self)@.buffer,
            final(self)@.frames == old(self)@.frames,
            final(self)@.frame_count == old(self)@.frame_count,
            final(self)@.width == old(self)@.width,
            final(self)@.height == old(self)@.height,
            final(self)@.max_frame_count == old(self)@.max_frame_count,
    {
        proof {
            use_type_invariant(&*self);
        }
        if self.frame_count == self.max_frame_count && !self.done_render {
            self.done_render = true;
            true
        } else {
            false
        }
    }

    /// The average of the frames added, byte by byte, rounded down.
    pub fn averaged_pixels(&self) -> (res: Vec<u8>)
        requires
            self@.buffer.len() > 0 ==> self@.frame_count > 0,
        ensures
            res@.len() == self@.buffer.len(),
            forall|i: int|
                0 <= i < res@.len() ==> #[trigger] res@[i] == self@.buffer[i] / self@.frame_count,
            forall|i: int|
                0 <= i < res@.len() ==> #[trigger] res@[i] == frame_total(self@.frames, i)
                    / (self@.frames.len() as int),
    {
        proof {
            use_type_invariant(self);
        }
        let n = self.frame_buffer.len();
        let count = self.frame_count;
        let mut out: Vec<u8> = Vec::new();
        let mut i: usize = 0;
        while i < n
            invariant
                self.wf(),
                count == self@.frame_count,
                n > 0 ==> count > 0,
                n == self@.buffer.len(),
                i <= n,
                out@.len() == i,
                forall|k: int| 0 <= k < i ==> #[trigger] out@[k] == self@.buffer[k] / count,
            decreases n - i,
        {
            let total = self.frame_buffer[i];
            proof {
                frame_total_bounds(self@.frames, i as int);
                assert(total / count <= 255) by (nonlinear_arith)
                    requires
                        total <= 255 * count,
                        count > 0,
                ;
            }
            out.push((total / count) as u8);
            i = i + 1;
        }
        out
    }
}

} // verus!

verus! {

/// An opaque 32-bit pixel: alpha 255 in the top byte, then red, green, blue.
pub open spec fn packed_pixel(r: u8, g: u8, b: u8) -> u32 {
    (0xFF00_0000 + r * 0x1_0000 + g * 0x100 + b) as u32
}

/// The shortest time between two frames shown, in nanoseconds: at most
/// twenty frames a second.
pub const MIN_FRAME_INTERVAL_NS: u64 = 50_000_000;

/// Whether a new frame is due, given the nanoseconds since the last frame
/// was shown (`None` where none was shown yet): none was shown, or at least
/// `MIN_FRAME_INTERVAL_NS` have passed.
pub fn frame_due(elapsed_ns: Option<u64>) -> (res: bool)
    ensures
        res == match elapsed_ns {
            None => true,
            Some(t) => t >= MIN_FRAME_INTERVAL_NS,
        },
{
    match elapsed_ns {
        None => true,
        Some(t) => t >= MIN_FRAME_INTERVAL_NS,
    }
}

/// Whether a frame is due at time `now` (nanoseconds on a clock that never
/// goes back) when the last frame was shown at `last`: none was shown, or
/// at least `MIN_FRAME_INTERVAL_NS` have passed since.
pub open spec fn frame_is_due(last: Option<u64>, now: u64) -> bool {
    match last {
        None => true,
        Some(l) => now >= l + MIN_FRAME_INTERVAL_NS,
    }
}

/// Limits the frames shown to twenty a second: remembers when the last
/// frame was shown.
pub struct FrameClock {
    pub last_shown_ns: Option<u64>,
}

impl FrameClock {
    /// A clock at which no frame was shown yet.
    pub fn new() -> (res: FrameClock)
        ensures
            res.last_shown_ns is None,
    {
        FrameClock { last_shown_ns: None }
    }

    /// Asks at time `now_ns` whether to show a frame. Where one is due, it
    /// counts as shown at `now_ns`; otherwise the clock is unchanged. (A time
    /// before the last frame counts as no time passed.)
    pub fn tick(&mut self, now_ns: u64) -> (res: bool)
        ensures
            res == frame_is_due(old(self).last_shown_ns, now_ns),
            old(self).last_shown_ns is None ==> res,
            old(self).last_shown_ns matches Some(l) ==> (res <==> now_ns >= l + 50_000_000),
            final(self).last_shown_ns == if res { Some(now_ns) } else { old(self).last_shown_ns },
    {
        let elapsed = match self.last_shown_ns {
            None => None,
            Some(last) => Some(if now_ns >= last { now_ns - last } else { 0 }),
        };
        let due = frame_due(elapsed);
        if due {
            self.last_shown_ns = Some(now_ns);
        }
        due
    }
}

/// The clock's last shown time after ticks at the times `times`, in order,
/// starting from `last`.
pub open spec fn clock_after(last: Option<u64>, times: Seq<u64>) -> Option<u64>
    decreases times.len(),
{
    if times.len() == 0 {
        last
    } else {
        let l = clock_after(last, times.drop_last());
        if frame_is_due(l, times.last()) {
            Some(times.last())
        } else {
            l
        }
    }
}

/// Whether the tick at `times[k]` shows a frame, in the run of ticks at
/// `times` from a clock whose last shown time is `last`.
pub open spec fn shown_at(last: Option<u64>, times: Seq<u64>, k: int) -> bool {
    frame_is_due(clock_after(last, times.take(k)), times[k])
}

/// A frame is due exactly when none was shown yet or at least fifty
/// milliseconds passed since the last: the limit never holds a frame back
/// longer than that, however long the gap.
pub proof fn frame_due_rule(last: Option<u64>, now: u64)
    ensures
        last is None ==> frame_is_due(last, now),
        last matches Some(l) ==> (frame_is_due(last, now) <==> now >= l + 50_000_000),
{
}

/// In any run of ticks, a tick at least fifty milliseconds after the last
/// frame shown (or before any was shown) shows a frame, and one earlier
/// shows none.
pub proof fn frame_clock_liveness(last: Option<u64>, times: Seq<u64>, k: int)
    requires
        0 <= k < times.len(),
    ensures
        clock_after(last, times.take(k)) is None ==> shown_at(last, times, k),
        clock_after(last, times.take(k)) matches Some(l) ==> (shown_at(last, times, k) <==> times[k] >= l
            + 50_000_000),
{
    frame_due_rule(clock_after(last, times.take(k)), times[k]);
}

/// After a frame shown at tick `i`, the clock's last shown time is never
/// earlier than `times[i]`.
proof fn clock_after_shown(last: Option<u64>, times: Seq<u64>, i: int, k: int)
    requires
        0 <= i < k <= times.len(),
        forall|a: int, b: int| 0 <= a <= b < times.len() ==> times[a] <= times[b],
        shown_at(last, times, i),
    ensures
        clock_after(last, times.take(k)) matches Some(x) && x >= times[i],
    decreases k - i,
{
    let tk = times.take(k);
    assert(tk.drop_last() =~= times.take(k - 1));
    assert(tk.last() == times[k - 1]);
    if k > i + 1 {
        clock_after_shown(last, times, i, k - 1);
    }
}

/// In any run of ticks at times that never go back, two frames shown are at
/// least `MIN_FRAME_INTERVAL_NS` apart: at most twenty frames a second.
pub proof fn frame_clock_spacing(last: Option<u64>, times: Seq<u64>, i: int, j: int)
    requires
        0 <= i < j < times.len(),
        forall|a: int, b: int| 0 <= a <= b < times.len() ==> times[a] <= times[b],
        shown_at(last, times, i),
        shown_at(last, times, j),
    ensures
        times[j] >= times[i] + MIN_FRAME_INTERVAL_NS,
{
    clock_after_shown(last, times, i, j);
}

/// An opaque packed pixel has alpha 255 in bits 24-31 and red, green and
/// blue in bits 16-23, 8-15 and 0-7, so each channel reads back unchanged.
pub proof fn packed_pixel_channels(r: u8, g: u8, b: u8)
    ensures
        packed_pixel(r, g, b) >> 24u32 == 0xFFu32,
        (packed_pixel(r, g, b) >> 16u32) & 0xFFu32 == r as u32,
        (packed_pixel(r, g, b) >> 8u32) & 0xFFu32 == g as u32,
        packed_pixel(r, g, b) & 0xFFu32 == b as u32,
{
    let (r32, g32, b32) = (r as u32, g as u32, b as u32);
    let p = packed_pixel(r, g, b);
    assert(p == 0xFF00_0000u32 + r32 * 0x1_0000u32 + g32 * 0x100u32 + b32);
    assert(p >> 24u32 == 0xFFu32 && (p >> 16u32) & 0xFFu32 == r32 && (p >> 8u32) & 0xFFu32 == g32 && p & 0xFFu32
        == b32) by (bit_vector)
        requires
            r32 < 256,
            g32 < 256,
            b32 < 256,
            p == 0xFF00_0000u32 + r32 * 0x1_0000u32 + g32 * 0x100u32 + b32,
    ;
}

/// Packs one colour into an opaque 32-bit pixel.
pub fn pack_rgb(r: u8, g: u8, b: u8) -> (res: u32)
    ensures
        res == packed_pixel(r, g, b),
        res >> 24u32 == 0xFFu32,
        (res >> 16u32) & 0xFFu32 == r as u32,
        (res >> 8u32) & 0xFFu32 == g as u32,
        res & 0xFFu32 == b as u32,
{
    proof {
        packed_pixel_channels(r, g, b);
    }
    let r32 = r as u32;
    let g32 = g as u32;
    let b32 = b as u32;
    let res = (r32 << 16u32) | (g32 << 8u32) | b32 | (255u32 << 24u32);
    assert(res == 0xFF00_0000 + r32 * 0x1_0000 + g32 * 0x100 + b32) by (bit_vector)
        requires
            r32 < 256,
            g32 < 256,
            b32 < 256,
            res == (r32 << 16u32) | (g32 << 8u32) | b32 | (255u32 << 24u32),
    ;
    res
}

proof fn lemma_whole_pixel(k: int, n: int, len: int)
    by (nonlinear_arith)
    requires
        0 <= k < n,
        n == len / 3,
        len >= 0,
    ensures
        3 * k + 3 <= len,
{
}

/// Packs an RGB byte buffer, three bytes per pixel, into opaque 32-bit
/// pixels; bytes that do not make a whole pixel at the end are dropped.
pub fn pack_pixels(rgb: &Vec<u8>) -> (res: Vec<u32>)
    ensures
        res@.len() == rgb@.len() / 3,
        forall|k: int|
            0 <= k < res@.len() ==> #[trigger] res@[k] == packed_pixel(
                rgb@[3 * k],
                rgb@[3 * k + 1],
                rgb@[3 * k + 2],
            ),
        forall|k: int|
            0 <= k < res@.len() ==> {
                &&& #[trigger] res@[k] >> 24u32 == 0xFFu32
                &&& (res@[k] >> 16u32) & 0xFFu32 == rgb@[3 * k] as u32
                &&& (res@[k] >> 8u32) & 0xFFu32 == rgb@[3 * k + 1] as u32
                &&& res@[k] & 0xFFu32 == rgb@[3 * k + 2] as u32
            },
{
    let len = rgb.len();
    let n = len / 3;
    let mut out: Vec<u32> = Vec::new();
    let mut k: usize = 0;
    while k < n
        invariant
            len == rgb@.len(),
            n == rgb@.len() / 3,
            k <= n,
            out@.len() == k,
            forall|j: int|
                0 <= j < k ==> #[trigger] out@[j] == packed_pixel(rgb@[3 * j], rgb@[3 * j + 1], rgb@[3 * j + 2]),
        decreases n - k,
    {
        proof {
            lemma_whole_pixel(k as int, n as int, rgb@.len() as int);
        }
        let base: usize = 3 * k;
        let p = pack_rgb(rgb[base], rgb[base + 1], rgb[base + 2]);
        out.push(p);
        k = k + 1;
    }
    proof {
        assert forall|j: int| 0 <= j < out@.len() implies {
            &&& #[trigger] out@[j] >> 24u32 == 0xFFu32
            &&& (out@[j] >> 16u32) & 0xFFu32 == rgb@[3 * j] as u32
            &&& (out@[j] >> 8u32) & 0xFFu32 == rgb@[3 * j + 1] as u32
            &&& out@[j] & 0xFFu32 == rgb@[3 * j + 2] as u32
        } by {
            packed_pixel_channels(rgb@[3 * j], rgb@[3 * j + 1], rgb@[3 * j + 2]);
        }
    }
    out
}

/// Where a frame of `src_width` by `src_height` pixels is drawn, scaled to
/// `scaled_width` by `scaled_height`, in a window `window_width` pixels wide:
/// its top-left corner lands at (`offset_x`, `offset_y`).
#[derive(Debug, Clone, Copy, PartialEq, Eq, Structural)]
pub struct Letterbox {
    pub src_width: u32,
    pub src_height: u32,
    pub scaled_width: u32,
    pub scaled_height: u32,
    pub offset_x: u32,
    pub offset_y: u32,
    pub window_width: u32,
}

impl Letterbox {
    /// The source pixel, nearest to the left and above, shown at position
    /// (`x`, `y`) of the scaled frame.
    pub open spec fn src_index(self, x: int, y: int) -> int {
        let src_x = (x * self.src_width) / (self.scaled_width as int);
        let src_y = (y * self.src_height) / (self.scaled_height as int);
        src_y * self.src_width + src_x
    }

    /// The window pixel at position (`x`, `y`) of the scaled frame.
    pub open spec fn dst_index(self, x: int, y: int) -> int {
        (y + self.offset_y) * self.window_width + (x + self.offset_x)
    }

    /// Whether the index arithmetic for position (`x`, `y`) stays within
    /// 32 bits (window side) and within `usize` (source side).
    pub open spec fn pixel_fits(self, x: int, y: int) -> bool {
        &&& x * self.src_width <= u32::MAX
        &&& y * self.src_height <= u32::MAX
        &&& x + self.offset_x <= u32::MAX
        &&& y + self.offset_y <= u32::MAX
        &&& self.dst_index(x, y) <= u32::MAX
        &&& self.src_index(x, y) <= usize::MAX
    }

    /// Whether the index arithmetic fits for every position of the scaled frame.
    pub open spec fn fits(self) -> bool {
        forall|x: int, y: int|
            0 <= x < self.scaled_width && 0 <= y < self.scaled_height ==> #[trigger] self.pixel_fits(x, y)
    }

    /// The window buffer after drawing position (`x`, `y`) of the scaled
    /// frame; `limit` is the buffer's length as the drawing code sees it.
    pub open spec fn draw_pixel(self, buf: Seq<u32>, source: Seq<u32>, limit: int, x: int, y: int) -> Seq<u32> {
        let d = self.dst_index(x, y);
        let s = self.src_index(x, y);
        if d < limit && s < source.len() {
            buf.update(d, source[s])
        } else {
            buf
        }
    }

    /// The window buffer after drawing the first `n` positions of row `y`.
    pub open spec fn draw_row(self, buf: Seq<u32>, source: Seq<u32>, limit: int, y: int, n: nat) -> Seq<u32>
        decreases n,
    {
        if n == 0 {
            buf
        } else {
            self.draw_pixel(self.draw_row(buf, source, limit, y, (n - 1) as nat), source, limit, n - 1, y)
        }
    }

    /// The window buffer after drawing the first `n` rows of the scaled frame.
    pub open spec fn draw_rows(self, buf: Seq<u32>, source: Seq<u32>, limit: int, n: nat) -> Seq<u32>
        decreases n,
    {
        if n == 0 {
            buf
        } else {
            self.draw_row(
                self.draw_rows(buf, source, limit, (n - 1) as nat),
                source,
                limit,
                n - 1,
                self.scaled_width as nat,
            )
        }
    }

    /// Whether window pixel `d` shows a source pixel once the first `n`
    /// rows of the scaled frame are drawn: it is below `limit`, its row
    /// and column fall within the scaled frame, and the source pixel exists.
    pub open spec fn drawn(self, source: Seq<u32>, limit: int, d: int, n: int) -> bool {
        let ww = self.window_width as int;
        &&& d < limit
        &&& ww > 0
        &&& 0 <= d / ww - self.offset_y < n
        &&& 0 <= d % ww - self.offset_x < self.scaled_width
        &&& self.src_index(d % ww - self.offset_x, d / ww - self.offset_y) < source.len()
    }

    /// What window pixel `d` of a buffer of `dst_len` pixels shows: the
    /// nearest source pixel inside the scaled frame, opaque black elsewhere.
    pub open spec fn shown_pixel(self, source: Seq<u32>, dst_len: usize, d: int) -> u32 {
        let ww = self.window_width as int;
        if self.drawn(source, (dst_len as u32) as int, d, self.scaled_height as int) {
            source[self.src_index(d % ww - self.offset_x, d / ww - self.offset_y)]
        } else {
            0xFF00_0000u32
        }
    }

    /// The window buffer of `dst_len` pixels: opaque black, with the scaled
    /// frame drawn row by row, left to right.
    pub open spec fn letterboxed(self, source: Seq<u32>, dst_len: usize) -> Seq<u32> {
        self.draw_rows(
            Seq::new(dst_len as nat, |i: int| 0xFF00_0000u32),
            source,
            (dst_len as u32) as int,
            self.scaled_height as nat,
        )
    }
}

/// Drawing the first `n` positions of row `y` sets exactly the window
/// pixels of that row whose column lies among them.
proof fn draw_row_closed(lb: Letterbox, buf: Seq<u32>, source: Seq<u32>, limit: int, y: int, n: nat)
    requires
        0 <= limit <= buf.len(),
        0 <= y,
        n <= lb.scaled_width,
        lb.offset_x + lb.scaled_width <= lb.window_width,
    ensures
        lb.draw_row(buf, source, limit, y, n).len() == buf.len(),
        forall|d: int|
            0 <= d < buf.len() ==> #[trigger] lb.draw_row(buf, source, limit, y, n)[d] == if lb.drawn(
                source,
                limit,
                d,
                y + 1,
            ) && d / (lb.window_width as int) - lb.offset_y == y && d % (lb.window_width as int) - lb.offset_x
                < n {
                source[lb.src_index(d % (lb.window_width as int) - lb.offset_x, y)]
            } else {
                buf[d]
            },
    decreases n,
{
    let ww = lb.window_width as int;
    if n == 0 {
        assert forall|d: int| 0 <= d < buf.len() implies #[trigger] lb.draw_row(buf, source, limit, y, n)[d] == if lb.drawn(
            source,
            limit,
            d,
            y + 1,
        ) && d / ww - lb.offset_y == y && d % ww - lb.offset_x < n {
            source[lb.src_index(d % ww - lb.offset_x, y)]
        } else {
            buf[d]
        } by {}
    } else {
        let prev = lb.draw_row(buf, source, limit, y, (n - 1) as nat);
        draw_row_closed(lb, buf, source, limit, y, (n - 1) as nat);
        let x = n - 1;
        let dd = lb.dst_index(x, y);
        assert(dd == (y + lb.offset_y) * ww + (x + lb.offset_x));
        vstd::arithmetic::div_mod::lemma_fundamental_div_mod_converse(dd, ww, y + lb.offset_y, x + lb.offset_x);
        assert(0 <= dd) by (nonlinear_arith)
            requires
                dd == (y + lb.offset_y) * ww + (x + lb.offset_x),
                y + lb.offset_y >= 0,
                ww >= 0,
                x + lb.offset_x >= 0,
        ;
        assert forall|d: int| 0 <= d < buf.len() implies #[trigger] lb.draw_row(buf, source, limit, y, n)[d] == if lb.drawn(
            source,
            limit,
            d,
            y + 1,
        ) && d / ww - lb.offset_y == y && d % ww - lb.offset_x < n {
            source[lb.src_index(d % ww - lb.offset_x, y)]
        } else {
            buf[d]
        } by {
            if d != dd && d / ww - lb.offset_y == y && d % ww - lb.offset_x == x {
                vstd::arithmetic::div_mod::lemma_fundamental_div_mod(d, ww);
                assert(d == ww * (y + lb.offset_y) + (x + lb.offset_x));
                assert(ww * (y + lb.offset_y) == (y + lb.offset_y) * ww) by (nonlinear_arith);
                assert(false);
            }
        }
    }
}

/// Drawing the first `n` rows sets exactly the window pixels that `drawn`
/// names, to the nearest source pixel.
proof fn draw_rows_closed(lb: Letterbox, buf: Seq<u32>, source: Seq<u32>, limit: int, n: nat)
    requires
        0 <= limit <= buf.len(),
        n <= lb.scaled_height,
        lb.offset_x + lb.scaled_width <= lb.window_width,
    ensures
        lb.draw_rows(buf, source, limit, n).len() == buf.len(),
        forall|d: int|
            0 <= d < buf.len() ==> #[trigger] lb.draw_rows(buf, source, limit, n)[d] == if lb.drawn(
                source,
                limit,
                d,
                n as int,
            ) {
                source[lb.src_index(
                    d % (lb.window_width as int) - lb.offset_x,
                    d / (lb.window_width as int) - lb.offset_y,
                )]
            } else {
                buf[d]
            },
    decreases n,
{
    let ww = lb.window_width as int;
    if n > 0 {
        let prev = lb.draw_rows(buf, source, limit, (n - 1) as nat);
        draw_rows_closed(lb, buf, source, limit, (n - 1) as nat);
        draw_row_closed(lb, prev, source, limit, n - 1, lb.scaled_width as nat);
        assert forall|d: int| 0 <= d < buf.len() implies #[trigger] lb.draw_rows(buf, source, limit, n)[d] == if lb.drawn(
            source,
            limit,
            d,
            n as int,
        ) {
            source[lb.src_index(d % ww - lb.offset_x, d / ww - lb.offset_y)]
        } else {
            buf[d]
        } by {
            assert(lb.draw_rows(buf, source, limit, n)[d] == lb.draw_row(prev, source, limit, n - 1, lb.scaled_width as nat)[d]);
        }
    }
}

/// Where the scaled frame lies within the window's width, the letterboxed
/// buffer shows, at every pixel inside the scaled frame, the nearest source
/// pixel (where it exists and the pixel is within reach of the drawing
/// code), and opaque black everywhere else.
pub proof fn letterbox_shows_frame(lb: Letterbox, source: Seq<u32>, dst_len: usize)
    requires
        lb.offset_x + lb.scaled_width <= lb.window_width,
    ensures
        lb.letterboxed(source, dst_len).len() == dst_len,
        forall|d: int|
            0 <= d < dst_len ==> #[trigger] lb.letterboxed(source, dst_len)[d] == lb.shown_pixel(source, dst_len, d),
{
    assert((dst_len as u32) as usize <= dst_len) by (bit_vector);
    let black = Seq::new(dst_len as nat, |i: int| 0xFF00_0000u32);
    draw_rows_closed(lb, black, source, (dst_len as u32) as int, lb.scaled_height as nat);
}

/// The index arithmetic only grows with the position, so the last position
/// of the scaled frame is the one that decides whether it fits.
proof fn pixel_fits_monotone(lb: Letterbox, x: int, y: int, mx: int, my: int)
    requires
        0 <= x <= mx,
        0 <= y <= my,
        lb.scaled_width > 0,
        lb.scaled_height > 0,
        lb.pixel_fits(mx, my),
    ensures
        lb.pixel_fits(x, y),
{
    let w = lb.src_width as int;
    let h = lb.src_height as int;
    let sw = lb.scaled_width as int;
    let sh = lb.scaled_height as int;
    let ww = lb.window_width as int;
    assert(x * w <= mx * w) by (nonlinear_arith)
        requires
            0 <= x <= mx,
            w >= 0,
    ;
    assert(y * h <= my * h) by (nonlinear_arith)
        requires
            0 <= y <= my,
            h >= 0,
    ;
    assert((x * w) / sw <= (mx * w) / sw) by (nonlinear_arith)
        requires
            0 <= x * w <= mx * w,
            sw > 0,
    ;
    assert((y * h) / sh <= (my * h) / sh) by (nonlinear_arith)
        requires
            0 <= y * h <= my * h,
            sh > 0,
    ;
    assert(0 <= (y * h) / sh) by (nonlinear_arith)
        requires
            0 <= y * h,
            sh > 0,
    ;
    assert(0 <= (x * w) / sw) by (nonlinear_arith)
        requires
            0 <= x * w,
            sw > 0,
    ;
    assert(((y * h) / sh) * w <= ((my * h) / sh) * w) by (nonlinear_arith)
        requires
            0 <= (y * h) / sh <= (my * h) / sh,
            w >= 0,
    ;
    assert((y + lb.offset_y) * ww <= (my + lb.offset_y) * ww) by (nonlinear_arith)
        requires
            0 <= y <= my,
            lb.offset_y >= 0,
            ww >= 0,
    ;
}

impl Letterbox {
    /// Checks whether the index arithmetic fits for every position of the
    /// scaled frame.
    pub fn fits_check(&self) -> (res: bool)
        ensures
            res == self.fits(),
    {
        if self.scaled_width == 0 || self.scaled_height == 0 {
            return true;
        }
        let x: u128 = (self.scaled_width - 1) as u128;
        let y: u128 = (self.scaled_height - 1) as u128;
        let w = self.src_width as u128;
        let h = self.src_height as u128;
        assert(x * w < 0x1_0000_0000_0000_0000 && y * h < 0x1_0000_0000_0000_0000) by (nonlinear_arith)
            requires
                x < 0x1_0000_0000,
                y < 0x1_0000_0000,
                w < 0x1_0000_0000,
                h < 0x1_0000_0000,
        ;
        let xw = x * w;
        let yh = y * h;
        assert(yh / (self.scaled_height as u128) <= yh) by (nonlinear_arith)
            requires
                self.scaled_height > 0,
        ;
        assert(xw / (self.scaled_width as u128) <= xw) by (nonlinear_arith)
            requires
                self.scaled_width > 0,
        ;
        let dst_x = x + self.offset_x as u128;
        let dst_y = y + self.offset_y as u128;
        assert(dst_y * (self.window_width as u128) < 0x1_0000_0000_0000_0000_0000) by (nonlinear_arith)
            requires
                dst_y < 0x2_0000_0000,
                self.window_width < 0x1_0000_0000,
        ;
        let dst = dst_y * self.window_width as u128 + dst_x;
        let sy = yh / self.scaled_height as u128;
        assert(sy * w < 0x1_0000_0000_0000_0000_0000_0000) by (nonlinear_arith)
            requires
                sy < 0x1_0000_0000_0000_0000,
                w < 0x1_0000_0000,
        ;
        let src = sy * w + xw / self.scaled_width as u128;
        let max32 = u32::MAX as u128;
        let res = xw <= max32 && yh <= max32 && dst_x <= max32 && dst_y <= max32 && dst <= max32 && src
            <= usize::MAX as u128;
        proof {
            let mx = x as int;
            let my = y as int;
            assert(res == self.pixel_fits(mx, my));
            if res {
                assert forall|px: int, py: int|
                    0 <= px < self.scaled_width && 0 <= py < self.scaled_height implies #[trigger] self.pixel_fits(
                    px,
                    py,
                ) by {
                    pixel_fits_monotone(*self, px, py, mx, my);
                }
            } else {
                assert(!self.pixel_fits(mx, my));
            }
        }
        res
    }
}

/// Fills a window buffer of `dst_len` pixels with opaque black and draws the
/// source frame into it at the letterbox's size and place, scaling by
/// nearest neighbour; pixels that fall outside the buffer or the source are
/// skipped.
pub fn letterbox_blit(source: &Vec<u32>, lb: Letterbox, dst_len: usize) -> (res: Vec<u32>)
    requires
        lb.fits(),
    ensures
        res@ == lb.letterboxed(source@, dst_len),
        res@.len() == dst_len,
{
    let mut buffer: Vec<u32> = Vec::new();
    let mut i: usize = 0;
    while i < dst_len
        invariant
            i <= dst_len,
            buffer@ == Seq::new(i as nat, |k: int| 0xFF00_0000u32),
        decreases dst_len - i,
    {
        buffer.push(0xFF00_0000u32);
        i = i + 1;
        assert(buffer@ =~= Seq::new(i as nat, |k: int| 0xFF00_0000u32));
    }
    let ghost black = buffer@;
    let limit: u32 = dst_len as u32;
    assert((dst_len as u32) as usize <= dst_len) by (bit_vector);
    let mut y: u32 = 0;
    while y < lb.scaled_height
        invariant
            lb.fits(),
            y <= lb.scaled_height,
            limit == (dst_len as u32),
            limit <= dst_len,
            black.len() == dst_len,
            buffer@ == lb.draw_rows(black, source@, limit as int, y as nat),
            buffer@.len() == dst_len,
        decreases lb.scaled_height - y,
    {
        let mut x: u32 = 0;
        while x < lb.scaled_width
            invariant
                lb.fits(),
                y < lb.scaled_height,
                x <= lb.scaled_width,
                limit == (dst_len as u32),
                limit <= dst_len,
                buffer@.len() == dst_len,
                buffer@ == lb.draw_row(
                    lb.draw_rows(black, source@, limit as int, y as nat),
                    source@,
                    limit as int,
                    y as int,
                    x as nat,
                ),
            decreases lb.scaled_width - x,
        {
            assert(lb.pixel_fits(x as int, y as int));
            let src_x = (x * lb.src_width / lb.scaled_width) as usize;
            let src_y = (y * lb.src_height / lb.scaled_height) as usize;
            let src_index = src_y * lb.src_width as usize + src_x;
            let dst_x = x + lb.offset_x;
            let dst_y = y + lb.offset_y;
            let dst_index = dst_y * lb.window_width + dst_x;
            if dst_index < limit && src_index < source.len() {
                buffer.set(dst_index as usize, source[src_index]);
            }
            x = x + 1;
        }
        y = y + 1;
    }
    buffer
}

} // verus!
