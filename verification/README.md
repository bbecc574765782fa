# processinator

Astronomy image processing: from linear FITS data to images that can be looked
at. Nonlinear stretches, background gradient removal, starlet wavelet
denoising, dark stacking-edge detection, color calibration, star reduction, and
synthetic frames with known ground truth.

The library in `src/` is verified with Verus. Its samples can be of any type:
every operation on them goes through an `Arithmetic` that the caller supplies,
and nothing is assumed of it. Each contract says which operations are applied
to which samples and in which order, so it holds of double precision samples
with all their rounding, of NaN, and of any other number format.

## Layout

| Module      | Contents                                                        |
|-------------|-----------------------------------------------------------------|
| `arith`     | the `Arithmetic` trait, formulas, and what it means to evaluate one |
| `plane`     | rows, columns, crops, sums and maps of a plane of samples       |
| `frame`     | `Image`, its invariant and its luminance                        |
| `stats`     | medians and percentiles by rank                                 |
| `linear`    | least squares by normal equations, Gaussian elimination         |
| `denoise`   | the starlet transform and its thresholding                      |
| `gradient`  | background sampling, polynomial fit and subtraction             |
| `autocrop`  | detection and removal of dark stacking edges                    |
| `stretch`   | normalization, the stretches, green removal, saturation         |
| `enhance`   | contrast, color calibration, star reduction, Gaussian blur      |
| `pipeline`  | the stages in order: `prepare` and `process`                    |
| `synthetic` | the generator, star fields, nebulae, noise and edges            |
| `fits_io`   | planar FITS samples and display bytes                           |
| `parallel`  | per-item work on all cores                                      |
| `laws`      | what holds across stages                                        |

`laws` states what the contracts give together.

- With an arithmetic that answers each question in one way, every stage has one
  output: the same seed gives the same image.
- Finished images hold samples of the unit range. The one exception is the green
  channel of a color image where the saturation is one: it is not limited again
  after green removal, and stays in the range where the arithmetic is exact.
- Preparing, stretching and finishing one after another is the pipeline, and
  so is showing the prepared image by its display solution. Where nothing else
  follows the stretch, denoising in the pipeline is denoising its result.
- Denoising leaves the coarsest scale alone, treats channels apart, and does not
  depend on the unit of the samples; nor does stretching raw data.
- Edge detection treats rows and columns alike.
- Noise and hot pixels never reach the noise-free image of a test frame.
- Planar samples read back as they were written.
- Where the arithmetic is exact, the midtones curves of `m` and `1 - m` undo each
  other, and saturations compose and keep the sum of a pixel. A solved system
  meets each of its equations, and no other coefficients fit better than those
  of least squares. The sky gradient and the nebulosity of a test frame peak at
  their amplitudes.

`app/` supplies the double precision arithmetic, FITS files and image files.
`tests/` runs the library on double precision samples.

## Trust

Four functions are taken at their word, each with the claim in its doc comment:
an order-keeping parallel map (rayon), selection by rank (the standard
library), and the two constructors of display images (image).
