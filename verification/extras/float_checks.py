"""Exhaustive checks of the f32 colour arithmetic of the plate logic against
the integer formulas that the verified library uses in its place.

Each check runs the f32 computation (emulated with single-precision rounding
after every operation) over its whole input domain and counts the inputs on
which the integer formula disagrees.  Where the count is zero the integer
formula is the same function and the library states it; where it is not, the
computation stays in floating point in app/.

Run with: python3 float_checks.py   (takes a few minutes)
"""

import math
import struct


def f32(x):
    """Rounds a Python float to the nearest f32."""
    return struct.unpack("f", struct.pack("f", x))[0]


def round_half_away(x):
    """`f32::round`: halves go away from zero."""
    return math.floor(x + 0.5) if x >= 0 else -math.floor(-x + 0.5)


def as_u8(x):
    """`as u8` on a float: truncation toward zero, saturating."""
    if x != x:
        return 0
    return max(0, min(255, int(x)))


UNIT = [f32(f32(n) / f32(255.0)) for n in range(256)]


def corner_unpremultiply():
    """Sampled card corners (alpha above 200): round(c / a * 255)."""
    bad = 0
    for a in range(201, 256):
        for c in range(256):
            got = as_u8(round_half_away(f32(f32(f32(c) / f32(a)) * f32(255.0))))
            want = min((510 * c + a) // (2 * a), 255)
            bad += got != want
    return bad


def straight_alpha():
    """Straight RGBA from premultiplied: round(min(c / (a / 255), 255))."""
    bad = 0
    for a in range(1, 255):
        af = f32(f32(a) / f32(255.0))
        for c in range(256):
            v = min(f32(f32(c) / af), f32(255.0))
            got = as_u8(round_half_away(v))
            want = min((510 * c + a) // (2 * a), 255)
            bad += got != want
    return bad


def average_of_two():
    """The mean of two channels, through unit floats and back."""
    bad = 0
    for x in range(256):
        for y in range(256):
            v = f32(f32(f32(UNIT[x] + UNIT[y]) / f32(2.0)) * f32(255.0))
            bad += as_u8(round_half_away(v)) != (x + y + 1) // 2
    return bad


def saturation_thresholds():
    """Saturation (max - min) / max against 0.35 and 0.20."""
    bad = 0
    for hi in range(256):
        for lo in range(hi + 1):
            mx, mn = UNIT[hi], UNIT[lo]
            sat = f32(0.0) if mx <= f32(0.001) else f32(f32(mx - mn) / mx)
            vivid = hi > 0 and 20 * (hi - lo) > 7 * hi
            grey = hi == 0 or 5 * (hi - lo) < hi
            bad += (sat > f32(0.35)) != vivid or (sat < f32(0.20)) != grey
    return bad


def dark_luminance():
    """0.299 r + 0.587 g + 0.114 b < 0.45 on unit channels."""
    ka, kb, kc, t = f32(0.299), f32(0.587), f32(0.114), f32(0.45)
    ar = [f32(ka * x) for x in UNIT]
    bg = [f32(kb * x) for x in UNIT]
    cb = [f32(kc * x) for x in UNIT]
    bad = 0
    for r in range(256):
        for g in range(256):
            s = f32(ar[r] + bg[g])
            base = 299 * r + 587 * g
            for b in range(256):
                bad += (f32(s + cb[b]) < t) != (base + 114 * b < 114750)
    return bad


def dark_plate_clamps():
    """Dark plate channels: (c * 0.55) and (c * 0.30), clamped, truncated."""
    bad = 0
    cases = [(0.55, 11, 20, 26, 48), (0.55, 11, 20, 28, 50), (0.55, 11, 20, 32, 56),
             (0.30, 3, 10, 14, 26), (0.30, 3, 10, 15, 28), (0.30, 3, 10, 18, 32)]
    for factor, num, den, lo, hi in cases:
        for c in range(256):
            x = min(max(f32(f32(c) * f32(factor)), f32(lo)), f32(hi))
            bad += int(x) != min(max(c * num // den, lo), hi)
    return bad


def sig_unit(n):
    return 1 if n < (1 << 24) else 2 * sig_unit(n // 2)


def round24(n):
    """A whole number rounded to 24 significant bits, ties to even."""
    p = sig_unit(n)
    q, r = divmod(n, p)
    up = 2 * r > p or (2 * r == p and q % 2 == 1)
    return (q + 1) * p if up else q * p


PCT = {0.08: (10737418, 1 << 27), 0.06: (16106127, 1 << 28),
       0.10: (13421773, 1 << 27), 0.12: (16106127, 1 << 27)}


def corner_insets():
    """Corner probe insets: ((side as f32) * pct) as i32 against the integer
    model round24(round24(side) * m) / 2^k, for every side below 2^20 and a
    spread of sides up to 2^32."""
    bad = 0
    sides = list(range(1, 1 << 20)) + [(1 << 32) - 1 - 7919 * i for i in range(200000)]
    for pct, (m, scale) in PCT.items():
        for b in sides:
            got = int(f32(f32(b) * f32(pct)))
            want = round24(round24(b) * m) // scale
            bad += got != want
    return bad


def main():
    checks = [
        ("corner unpremultiply", corner_unpremultiply),
        ("straight alpha", straight_alpha),
        ("average of two", average_of_two),
        ("saturation thresholds", saturation_thresholds),
        ("dark plate clamps", dark_plate_clamps),
        ("corner insets", corner_insets),
        ("dark luminance", dark_luminance),
    ]
    for name, check in checks:
        print(f"{name}: {check()} disagreements")


if __name__ == "__main__":
    main()
