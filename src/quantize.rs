//! Color quantization of raw pixel bytes: sample the pixels, cluster their colors, and repaint
//! every pixel with its closest centroid.
use vstd::prelude::*;
use crate::kmeans::config::{KMeansAlgorithm, KMeansConfig};
use crate::kmeans::initializer::Initializer;
use crate::kmeans::utils::{find_closest_centroid, nearest, views};
use crate::kmeans::KMeans;
use crate::utils::{distinct_fingerprints, num_distinct_colors};

verus! {

/// Where the clustering runs.
#[derive(Debug, Clone, Copy, PartialEq, Eq, Structural)]
pub enum ColorCruncherMode {
    GPU,
    CPU,
}

impl Default for ColorCruncherMode {
    fn default() -> (r: Self)
        ensures
            r == ColorCruncherMode::CPU,
    {
        ColorCruncherMode::CPU
    }
}

/// A configured quantizer.
#[derive(Debug, Clone, Copy)]
pub struct ColorCruncher {
    pub kmeans: KMeans,
    pub max_colors: usize,
    pub sample_rate: usize,
    pub channels: usize,
    pub mode: ColorCruncherMode,
}

/// Settings for a quantizer; each one left unset takes its default.
#[derive(Debug, Clone, Copy)]
pub struct ColorCruncherBuilder {
    pub max_colors: Option<usize>,
    pub channels: Option<usize>,
    pub sample_rate: Option<usize>,
    pub tolerance: Option<u64>,
    pub max_iterations: Option<usize>,
    pub initializer: Option<Initializer>,
    pub algorithm: Option<KMeansAlgorithm>,
    pub seed: Option<u64>,
}

impl Default for ColorCruncherBuilder {
    fn default() -> (r: Self)
        ensures
            r.max_colors.is_none(),
            r.channels.is_none(),
            r.sample_rate.is_none(),
            r.tolerance.is_none(),
            r.max_iterations.is_none(),
            r.initializer.is_none(),
            r.algorithm.is_none(),
            r.seed.is_none(),
    {
        ColorCruncherBuilder {
            max_colors: None,
            channels: None,
            sample_rate: None,
            tolerance: None,
            max_iterations: None,
            initializer: None,
            algorithm: None,
            seed: None,
        }
    }
}

/// `o` when set, else `d`.
pub open spec fn or_default<T>(o: Option<T>, d: T) -> T {
    match o {
        Some(v) => v,
        None => d,
    }
}

fn unwrap_or_usize(o: Option<usize>, d: usize) -> (r: usize)
    ensures
        r == or_default(o, d),
{
    match o {
        Some(v) => v,
        None => d,
    }
}

impl ColorCruncherBuilder {
    pub fn new() -> (r: Self)
        ensures
            r.max_colors.is_none() && r.channels.is_none() && r.sample_rate.is_none()
                && r.tolerance.is_none() && r.max_iterations.is_none() && r.initializer.is_none()
                && r.algorithm.is_none() && r.seed.is_none(),
    {
        Self::default()
    }

    pub fn with_max_colors(self, max_colors: usize) -> (r: Self)
        ensures
            r == (ColorCruncherBuilder { max_colors: Some(max_colors), ..self }),
    {
        ColorCruncherBuilder { max_colors: Some(max_colors), ..self }
    }

    pub fn with_channels(self, channels: usize) -> (r: Self)
        ensures
            r == (ColorCruncherBuilder { channels: Some(channels), ..self }),
    {
        ColorCruncherBuilder { channels: Some(channels), ..self }
    }

    pub fn with_sample_rate(self, sample_rate: usize) -> (r: Self)
        ensures
            r == (ColorCruncherBuilder { sample_rate: Some(sample_rate), ..self }),
    {
        ColorCruncherBuilder { sample_rate: Some(sample_rate), ..self }
    }

    pub fn with_tolerance(self, tolerance: u64) -> (r: Self)
        ensures
            r == (ColorCruncherBuilder { tolerance: Some(tolerance), ..self }),
    {
        ColorCruncherBuilder { tolerance: Some(tolerance), ..self }
    }

    pub fn with_max_iterations(self, max_iterations: usize) -> (r: Self)
        ensures
            r == (ColorCruncherBuilder { max_iterations: Some(max_iterations), ..self }),
    {
        ColorCruncherBuilder { max_iterations: Some(max_iterations), ..self }
    }

    pub fn with_initializer(self, initializer: Initializer) -> (r: Self)
        ensures
            r == (ColorCruncherBuilder { initializer: Some(initializer), ..self }),
    {
        ColorCruncherBuilder { initializer: Some(initializer), ..self }
    }

    pub fn with_algorithm(self, algorithm: KMeansAlgorithm) -> (r: Self)
        ensures
            r == (ColorCruncherBuilder { algorithm: Some(algorithm), ..self }),
    {
        ColorCruncherBuilder { algorithm: Some(algorithm), ..self }
    }

    pub fn with_seed(self, seed: u64) -> (r: Self)
        ensures
            r == (ColorCruncherBuilder { seed: Some(seed), ..self }),
    {
        ColorCruncherBuilder { seed: Some(seed), ..self }
    }

    /// The clustering configuration: each unset setting takes the engine's default.
    pub fn build_config(&self) -> (r: KMeansConfig)
        ensures
            r.k == or_default(self.max_colors, 10),
            r.max_iterations == or_default(self.max_iterations, 100),
            r.tolerance == or_default(self.tolerance, 1),
            r.algorithm == or_default(self.algorithm, KMeansAlgorithm::Lloyd),
            r.initializer == or_default(self.initializer, Initializer::KMeansPlusPlus),
            r.seed == self.seed,
    {
        let d = KMeansConfig::default();
        KMeansConfig {
            k: unwrap_or_usize(self.max_colors, d.k),
            max_iterations: unwrap_or_usize(self.max_iterations, d.max_iterations),
            tolerance: match self.tolerance {
                Some(t) => t,
                None => d.tolerance,
            },
            algorithm: match self.algorithm {
                Some(a) => a,
                None => d.algorithm,
            },
            initializer: match self.initializer {
                Some(i) => i,
                None => d.initializer,
            },
            seed: self.seed,
        }
    }

    /// A quantizer that clusters on the host; three channels unless set, every pixel sampled
    /// unless set.
    pub fn build_cpu(&self) -> (r: ColorCruncher)
        ensures
            r.kmeans.0 == self.build_config_spec(),
            r.max_colors == r.kmeans.0.k,
            r.sample_rate == or_default(self.sample_rate, 1),
            r.channels == or_default(self.channels, 3),
            r.mode == ColorCruncherMode::CPU,
    {
        let config = self.build_config();
        ColorCruncher {
            kmeans: KMeans::new(config),
            max_colors: config.k,
            sample_rate: unwrap_or_usize(self.sample_rate, 1),
            channels: unwrap_or_usize(self.channels, 3),
            mode: ColorCruncherMode::CPU,
        }
    }

    /// A quantizer whose clustering runs on a compute device, over four-channel pixels.
    pub fn build_gpu(&self) -> (r: ColorCruncher)
        ensures
            r.kmeans.0 == self.build_config_spec(),
            r.max_colors == r.kmeans.0.k,
            r.sample_rate == or_default(self.sample_rate, 1),
            r.channels == 4,
            r.mode == ColorCruncherMode::GPU,
    {
        let config = self.build_config();
        ColorCruncher {
            kmeans: KMeans::new(config),
            max_colors: config.k,
            sample_rate: unwrap_or_usize(self.sample_rate, 1),
            channels: 4,
            mode: ColorCruncherMode::GPU,
        }
    }

    /// The configuration [`ColorCruncherBuilder::build_config`] returns.
    pub open spec fn build_config_spec(&self) -> KMeansConfig {
        KMeansConfig {
            k: or_default(self.max_colors, 10),
            max_iterations: or_default(self.max_iterations, 100),
            tolerance: or_default(self.tolerance, 1),
            algorithm: or_default(self.algorithm, KMeansAlgorithm::Lloyd),
            initializer: or_default(self.initializer, Initializer::KMeansPlusPlus),
            seed: self.seed,
        }
    }
}

} // verus!

verus! {

/// Number of whole pixels of `channels` bytes.
pub open spec fn pixel_count(pixels: Seq<u8>, channels: nat) -> nat {
    pixels.len() / channels
}

/// The color of pixel `p`: its first three bytes.
pub open spec fn pixel_color(pixels: Seq<u8>, channels: nat, p: int) -> Seq<u8> {
    seq![pixels[p * channels], pixels[p * channels + 1], pixels[p * channels + 2]]
}

/// The colors of every `rate`-th whole pixel, from the first.
pub open spec fn sampled(pixels: Seq<u8>, channels: nat, rate: nat) -> Seq<Seq<u8>> {
    let n = pixel_count(pixels, channels);
    Seq::new(
        (n / rate + if n % rate == 0 {
            0nat
        } else {
            1nat
        }) as nat,
        |j: int| pixel_color(pixels, channels, j * rate),
    )
}

/// The bytes of pixel `p` repainted with the closest of `palette`, its fourth byte kept when it
/// has one.
pub open spec fn repainted(pixels: Seq<u8>, channels: nat, p: int, palette: Seq<Seq<u8>>) -> Seq<u8> {
    let c = palette[nearest(pixel_color(pixels, channels, p), palette) as int];
    if channels == 3 {
        c
    } else {
        c.push(pixels[p * channels + 3])
    }
}

/// Bytes per repainted pixel: three, or four when the pixels have a fourth byte.
pub open spec fn out_width(channels: nat) -> nat {
    if channels == 3 {
        3
    } else {
        4
    }
}

/// Every whole pixel repainted with the closest of `palette`.
pub open spec fn repaint_all(pixels: Seq<u8>, channels: nat, palette: Seq<Seq<u8>>) -> Seq<u8> {
    let w = out_width(channels) as int;
    Seq::new(
        pixel_count(pixels, channels) * out_width(channels),
        |x: int| repainted(pixels, channels, x / w, palette)[x % w],
    )
}

proof fn lemma_ceil_div_le(c: int, r: int)
    requires
        c >= 0,
        r >= 1,
    ensures
        c / r + (if c % r == 0 {
            0int
        } else {
            1int
        }) <= c,
{
    let q = c / r;
    let m = c % r;
    assert(c == r * q + m && 0 <= m < r) by (nonlinear_arith)
        requires
            r >= 1,
            q == c / r,
            m == c % r,
    ;
    assert(q >= 0) by (nonlinear_arith)
        requires
            c >= 0,
            r >= 1,
            q == c / r,
    ;
    assert(r * q >= q) by (nonlinear_arith)
        requires
            r >= 1,
            q >= 0,
    ;
}

proof fn lemma_pixel_index(p: int, ch: int, c: int, count: int)
    requires
        3 <= ch,
        0 <= c < ch,
        0 <= p < count,
    ensures
        (p * ch + c) / ch == p,
        (p * ch + c) % ch == c,
        p * ch + c < count * ch,
        p * ch + ch <= count * ch,
{
    assert((p * ch + c) / ch == p && (p * ch + c) % ch == c) by (nonlinear_arith)
        requires
            3 <= ch,
            0 <= c < ch,
    ;
    assert(p * ch + ch <= count * ch) by (nonlinear_arith)
        requires
            3 <= ch,
            0 <= p < count,
    ;
}

impl ColorCruncher {
    /// The colors of the sampled pixels.
    pub fn chunk_pixels_vec3(&self, pixels: &[u8]) -> (r: Vec<[u8; 3]>)
        requires
            3 <= self.channels,
            self.sample_rate >= 1,
        ensures
            views(r@) == sampled(pixels@, self.channels as nat, self.sample_rate as nat),
    {
        let ch = self.channels;
        let rate = self.sample_rate;
        let len = pixels.len();
        let count = len / ch;
        assert(count <= pixels@.len() / 3) by (nonlinear_arith)
            requires
                count == pixels@.len() / (ch as nat),
                ch >= 3,
        ;
        let num = count / rate + if count % rate == 0 {
            0
        } else {
            1
        };
        let ghost want = sampled(pixels@, ch as nat, rate as nat);
        let mut out: Vec<[u8; 3]> = Vec::new();
        for j in 0..num
            invariant
                3 <= ch,
                rate >= 1,
                len == pixels@.len(),
                count == pixels@.len() / (ch as nat),
                num == want.len(),
                num == count / rate + if count % rate == 0 { 0int } else { 1int },
                want == sampled(pixels@, ch as nat, rate as nat),
                out@.len() == j,
                forall|m: int| 0 <= m < j ==> (#[trigger] out@[m])@ == want[m],
        {
            assert(j * rate < count) by (nonlinear_arith)
                requires
                    rate >= 1,
                    j < num,
                    num == count / rate + if count % rate == 0 { 0int } else { 1int },
            ;
            let p = j * rate;
            proof {
                lemma_pixel_index(p as int, ch as int, 2, count as int);
                assert(count * ch <= pixels@.len()) by (nonlinear_arith)
                    requires
                        count == pixels@.len() / (ch as nat),
                        ch >= 1,
                ;
            }
            assert(p * ch + 2 < pixels@.len());
            let base = p * ch;
            let color: [u8; 3] = [pixels[base], pixels[base + 1], pixels[base + 2]];
            out.push(color);
            proof {
                assert(color@ =~= want[j as int]);
            }
        }
        proof {
            assert(views(out@) =~= want);
        }
        out
    }
}

/// Every whole pixel repainted with the closest of `palette`.
fn repaint(pixels: &[u8], channels: usize, palette: &[[u8; 3]]) -> (r: Vec<u8>)
    requires
        3 <= channels,
        palette@.len() > 0,
    ensures
        r@ == repaint_all(pixels@, channels as nat, views(palette@)),
{
    let ghost pv = views(palette@);
    let ghost want = repaint_all(pixels@, channels as nat, pv);
    let len = pixels.len();
    let count = len / channels;
    proof {
        assert(count * channels <= len) by (nonlinear_arith)
            requires
                count == len / channels,
                channels >= 1,
        ;
    }
    let mut out: Vec<u8> = Vec::new();
    let ghost w = out_width(channels as nat) as int;
    for p in 0..count
        invariant
            3 <= channels,
            w == out_width(channels as nat),
            palette@.len() > 0,
            pv == views(palette@),
            len == pixels@.len(),
            count == pixels@.len() / (channels as nat),
            count * channels <= len,
            want == repaint_all(pixels@, channels as nat, pv),
            want.len() == count * w,
            out@.len() == p * w,
            forall|x: int| 0 <= x < out@.len() ==> out@[x] == want[x],
    {
        proof {
            lemma_pixel_index(p as int, channels as int, 0, count as int);
            if channels > 3 {
                lemma_pixel_index(p as int, channels as int, 3, count as int);
            }
            lemma_pixel_index(p as int, w, 0, count as int);
        }
        let base = p * channels;
        let color: [u8; 3] = [pixels[base], pixels[base + 1], pixels[base + 2]];
        let j = find_closest_centroid(&color, palette);
        let new_color = palette[j];
        proof {
            assert(color@ =~= pixel_color(pixels@, channels as nat, p as int));
            assert(pv[j as int] == new_color@);
        }
        let ghost before = out@;
        out.push(new_color[0]);
        out.push(new_color[1]);
        out.push(new_color[2]);
        if channels != 3 {
            out.push(pixels[base + 3]);
        }
        proof {
            let rp = repainted(pixels@, channels as nat, p as int, pv);
            assert forall|x: int| 0 <= x < out@.len() implies out@[x] == want[x] by {
                if x >= before.len() {
                    let c = x - before.len();
                    lemma_pixel_index(p as int, w, c, count as int);
                    assert(x == p * w + c);
                }
            }
        }
    }
    proof {
        assert(out@ =~= want);
    }
    out
}

impl ColorCruncher {
    /// `palette` is the centroid set of a clustering run of `sample` with this quantizer's
    /// configuration, from centroids its initializer can return.
    pub open spec fn clustered_palette(&self, sample: Seq<Seq<u8>>, palette: Seq<Seq<u8>>) -> bool {
        &&& palette.len() == self.max_colors
        &&& self.kmeans.0.algorithm == KMeansAlgorithm::Lloyd ==> exists|
            cs0: Seq<Seq<u8>>,
            asg: Seq<usize>,
        |
            crate::kmeans::initializer::initial_ok(cs0, sample, self.max_colors as nat)
                && #[trigger] crate::kmeans::lloyd::lloyd_result(
                sample,
                cs0,
                self.kmeans.0.tolerance as int,
                self.kmeans.0.max_iterations as nat,
                asg,
                palette,
            )
        &&& self.kmeans.0.algorithm == KMeansAlgorithm::Hamerly ==> exists|
            cs0: Seq<Seq<u8>>,
            asg: Seq<usize>,
            done: bool,
        |
            crate::kmeans::initializer::initial_ok(cs0, sample, self.max_colors as nat)
                && #[trigger] crate::kmeans::hamerly::hamerly_reachable(
                sample,
                cs0,
                self.kmeans.0.tolerance as int,
                self.kmeans.0.max_iterations as nat,
                asg,
                palette,
                done,
            )
    }

    proof fn lemma_run_palette(&self, sample: Seq<Seq<u8>>, asg: Seq<usize>, cs: Seq<Seq<u8>>)
        requires
            self.max_colors == self.kmeans.0.k,
            cs.len() == self.kmeans.0.k,
            self.kmeans.0.algorithm == KMeansAlgorithm::Lloyd ==> exists|cs0: Seq<Seq<u8>>|
                crate::kmeans::initializer::initial_ok(cs0, sample, self.kmeans.0.k as nat)
                    && #[trigger] crate::kmeans::lloyd::lloyd_result(
                    sample,
                    cs0,
                    self.kmeans.0.tolerance as int,
                    self.kmeans.0.max_iterations as nat,
                    asg,
                    cs,
                ),
            self.kmeans.0.algorithm == KMeansAlgorithm::Hamerly ==> exists|
                cs0: Seq<Seq<u8>>,
                done: bool,
            |
                crate::kmeans::initializer::initial_ok(cs0, sample, self.kmeans.0.k as nat)
                    && #[trigger] crate::kmeans::hamerly::hamerly_reachable(
                    sample,
                    cs0,
                    self.kmeans.0.tolerance as int,
                    self.kmeans.0.max_iterations as nat,
                    asg,
                    cs,
                    done,
                ),
        ensures
            self.clustered_palette(sample, cs),
    {
        if self.kmeans.0.algorithm == KMeansAlgorithm::Lloyd {
            let cs0 = choose|cs0: Seq<Seq<u8>>|
                crate::kmeans::initializer::initial_ok(cs0, sample, self.kmeans.0.k as nat)
                    && #[trigger] crate::kmeans::lloyd::lloyd_result(
                    sample,
                    cs0,
                    self.kmeans.0.tolerance as int,
                    self.kmeans.0.max_iterations as nat,
                    asg,
                    cs,
                );
            assert(crate::kmeans::lloyd::lloyd_result(
                sample,
                cs0,
                self.kmeans.0.tolerance as int,
                self.kmeans.0.max_iterations as nat,
                asg,
                cs,
            ));
        }
        if self.kmeans.0.algorithm == KMeansAlgorithm::Hamerly {
            let (cs0, done) = choose|cs0: Seq<Seq<u8>>, done: bool|
                crate::kmeans::initializer::initial_ok(cs0, sample, self.kmeans.0.k as nat)
                    && #[trigger] crate::kmeans::hamerly::hamerly_reachable(
                    sample,
                    cs0,
                    self.kmeans.0.tolerance as int,
                    self.kmeans.0.max_iterations as nat,
                    asg,
                    cs,
                    done,
                );
            assert(crate::kmeans::hamerly::hamerly_reachable(
                sample,
                cs0,
                self.kmeans.0.tolerance as int,
                self.kmeans.0.max_iterations as nat,
                asg,
                cs,
                done,
            ));
        }
    }

    /// Repaints every whole pixel with the closest of at most `max_colors` cluster centroids of
    /// the sampled colors. When the sample holds no more than `max_colors` distinct
    /// fingerprints, the pixels come back unchanged.
    pub fn quantize_image(&self, pixels: &[u8]) -> (r: Vec<u8>)
        requires
            3 <= self.channels,
            self.sample_rate >= 1,
            self.max_colors == self.kmeans.0.k,
            self.max_colors >= 1 || distinct_fingerprints(
                sampled(pixels@, self.channels as nat, self.sample_rate as nat),
            ) == 0,
            self.kmeans.0.algorithm != KMeansAlgorithm::LloydGpu,
        ensures
            distinct_fingerprints(sampled(pixels@, self.channels as nat, self.sample_rate as nat))
                <= self.max_colors ==> r@ == pixels@,
            distinct_fingerprints(sampled(pixels@, self.channels as nat, self.sample_rate as nat))
                > self.max_colors ==> exists|palette: Seq<Seq<u8>>|
                self.clustered_palette(
                    sampled(pixels@, self.channels as nat, self.sample_rate as nat),
                    palette,
                ) && r@ == #[trigger] repaint_all(pixels@, self.channels as nat, palette),
    {
        let total = pixels.len();
        let image_data = self.chunk_pixels_vec3(pixels);
        if num_distinct_colors(image_data.as_slice()) <= self.max_colors {
            return vstd::slice::slice_to_vec(pixels);
        }
        proof {
            let count = (pixels@.len() / (self.channels as nat)) as int;
            let rate = self.sample_rate as int;
            assert(image_data@.len() == views(image_data@).len());
            lemma_ceil_div_le(count, rate);
            assert(image_data@.len() * 3 <= count * 3);
            assert(count * 3 <= pixels@.len()) by (nonlinear_arith)
                requires
                    count == pixels@.len() / (self.channels as nat),
                    self.channels >= 3,
            ;
            assert(total == pixels@.len());
        }
        match self.kmeans.run_vec3(image_data.as_slice()) {
            Ok((asg, centroids)) => {
                proof {
                    self.lemma_run_palette(views(image_data@), asg@, views(centroids@));
                }
                let out = repaint(pixels, self.channels, centroids.as_slice());
                proof {
                    assert(repaint_all(pixels@, self.channels as nat, views(centroids@)) == out@);
                }
                out
            },
            Err(_) => {
                proof {
                    assert(false);
                }
                vstd::slice::slice_to_vec(pixels)
            },
        }
    }

    /// The centroids of the sampled colors, as a palette of at most `max_colors` colors. The
    /// sample must hold at least `max_colors` distinct fingerprints.
    pub fn create_palette(&self, pixels: &[u8]) -> (r: Vec<[u8; 3]>)
        requires
            3 <= self.channels,
            self.sample_rate >= 1,
            self.max_colors == self.kmeans.0.k,
            self.max_colors >= 1,
            self.kmeans.0.algorithm != KMeansAlgorithm::LloydGpu,
            distinct_fingerprints(sampled(pixels@, self.channels as nat, self.sample_rate as nat))
                >= self.max_colors,
        ensures
            r@.len() == self.max_colors,
            self.clustered_palette(
                sampled(pixels@, self.channels as nat, self.sample_rate as nat),
                views(r@),
            ),
    {
        let total = pixels.len();
        let image_data = self.chunk_pixels_vec3(pixels);
        proof {
            let count = (pixels@.len() / (self.channels as nat)) as int;
            let rate = self.sample_rate as int;
            assert(image_data@.len() == views(image_data@).len());
            lemma_ceil_div_le(count, rate);
            assert(image_data@.len() * 3 <= count * 3);
            assert(count * 3 <= pixels@.len()) by (nonlinear_arith)
                requires
                    count == pixels@.len() / (self.channels as nat),
                    self.channels >= 3,
            ;
            assert(total == pixels@.len());
        }
        match self.kmeans.run_vec3(image_data.as_slice()) {
            Ok((asg, centroids)) => {
                proof {
                    self.lemma_run_palette(views(image_data@), asg@, views(centroids@));
                }
                centroids
            },
            Err(_) => {
                proof {
                    assert(false);
                }
                Vec::new()
            },
        }
    }
}

} // verus!
