# decimax

Fixed-size decimal types held in one integer: a sign bit (signed types only),
a scale, and a mantissa, so that a decimal stands for
`(-1)^sign * mantissa / 10^scale`. Six types are provided: `Dec128`, `Dec64`,
`Dec32` and their unsigned forms `UDec128`, `UDec64`, `UDec32`.

The library is written in Verus. Every operation states in its contract what
it returns over a mathematical view of a decimal (`DecimalView`: sign, scale,
mantissa as natural numbers), and the laws that relate operations are proved
as public proof functions.

## Layout

- `src/lib.rs`: the `UnderlyingInt` trait (what each integer width provides),
  the `Decimal` type and its view, construction from parts.
- `src/int32.rs`, `src/int64.rs`, `src/int128.rs`: the integer-level work for
  each width: packing fields, multiplication at a sum of scales, division with
  scales (including long division for wide divisors).
- `src/ops.rs`: addition, subtraction, multiplication, division, comparison,
  with the spec functions that say what each one gives (`sum_spec`,
  `product_spec`, `quotient_spec`, `value_ordering`).
- `src/quotient.rs`: how the scale of a quotient is chosen and how it is
  rounded.
- `src/operators.rs`: the `+ - * /` operators.
- `src/from_str.rs`, `src/display.rs`: reading from and writing to strings.
- `src/convert.rs`: conversions from integers and between decimal types.
- `src/floats.rs`: conversion from the bits of `f32` and `f64`.
- `src/pow10div.rs`: the calls into the `div_pow10` crate, with their contracts.
- `src/math.rs`: powers, bit lengths, rounding, and lemmas about them.
- `src/laws.rs`: the laws of the library.
- `app/`: `Display`, `Error` and float conversions, which need the standard
  library's formatting and floating point.
- `tests/`: tests of the library, including a comparison with the
  `primitive_fixed_point_decimal` crate.
