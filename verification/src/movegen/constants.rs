//! The multipliers that index the sliding attack tables, one per square and slider.
use vstd::prelude::*;

verus! {

/// The rook's multiplier for each square.
pub const ROOK_MAGICS_NUMBERS: [u64; 64] = [
    0x0080_04d0_8020_c000,
    0x4040_1000_2000_4000,
    0x0080_1000_8020_0008,
    0x0100_2008_1001_0004,
    0x0200_0810_0502_0020,
    0x4100_0208_0100_0400,
    0x0880_0200_0080_0100,
    0x6600_0082_0020_5401,
    0x0508_8008_80c0_01a0,
    0x0080_4020_0040_1001,
    0x0011_0041_0010_2000,
    0x0006_0010_a442_0008,
    0x0c00_8004_0080_0800,
    0x0000_8004_0080_0200,
    0x00c2_0002_0004_0801,
    0x0001_8008_8006_cd00,
    0x2380_0040_0020_0040,
    0x0000_4140_1001_a000,
    0x2011_0500_1042_2002,
    0x0023_0300_1000_8820,
    0x0000_8280_0400_0800,
    0x0d02_8801_1040_2420,
    0x0040_1400_01b0_1208,
    0x0000_0600_0041_0884,
    0x1010_4014_8004_8420,
    0x0000_4001_4020_1000,
    0x0080_1101_0040_2002,
    0x0200_8823_0010_0100,
    0x1109_2802_8024_0080,
    0x0100_0400_8002_0080,
    0x0400_0104_0042_1008,
    0x2002_0482_0024_0449,
    0x8080_0020_0040_0044,
    0x02d0_0120_0140_0040,
    0x2501_8010_0180_2000,
    0x0000_1800_8180_1000,
    0x12a4_0004_8080_0800,
    0x0850_0200_8080_0400,
    0x0000_0108_0400_5042,
    0x0010_4100_8a00_0444,
    0x0008_8001_0045_0020,
    0x0440_4120_1002_4000,
    0x0040_2000_1000_8080,
    0x0080_0a00_1022_0040,
    0x1200_0400_0800_8080,
    0x0002_0008_1002_0004,
    0x1800_0210_0804_0001,
    0x0498_040c_5082_0021,
    0x4a00_2841_0208_8200,
    0x0000_4022_0081_1200,
    0x0e01_0020_0210_4d00,
    0x8608_0081_1001_0880,
    0x0010_0800_8004_0080,
    0x442a_0044_1188_0200,
    0x2041_0084_3200_4100,
    0x0328_0100_8400_4200,
    0x8001_1062_4b00_8001,
    0x8201_0228_1080_4202,
    0x0004_400a_2001_0011,
    0x8001_2005_0010_0009,
    0x4412_0104_2008_1002,
    0x4001_0004_0002_1831,
    0x0408_0088_0230_0104,
    0x1006_0104_0440_94a2,
];

/// The bishop's multiplier for each square.
pub const BISHOP_MAGIC_NUMBERS: [u64; 64] = [
    0x0410_5010_1080_2046,
    0x0290_0210_a400_820a,
    0x0122_4800_4480_1500,
    0x1930_9182_0481_0000,
    0x0254_0421_0000_0101,
    0x0009_0c02_4048_0004,
    0x0024_0421_0510_0212,
    0x0800_402c_1008_0400,
    0x0020_2008_4240_8400,
    0x0805_2008_5200_8027,
    0x0202_5128_0220_4050,
    0x5080_0820_8020_0400,
    0x2000_c404_2088_8202,
    0x8203_0088_2008_4014,
    0x0000_20a8_0808_0400,
    0x0a02_0c82_4118_2029,
    0x2220_0040_4802_00a0,
    0x0002_0220_0401_2210,
    0x0002_0001_0801_0103,
    0x4020_4004_0104_2000,
    0x010c_000a_22a0_0000,
    0x122a_01c1_0801_0446,
    0x0004_1101_0d18_0288,
    0x0000_2a00_8401_0801,
    0x0414_4040_2028_0180,
    0x1084_0b00_1010_0d02,
    0xc044_0400_c049_0020,
    0x0040_4100_0801_0900,
    0x0001_0400_0200_2100,
    0x0108_08a0_1201_8410,
    0x0801_0108_1208_9044,
    0x0804_0593_0422_0110,
    0x0002_1004_a010_2010,
    0x0001_1430_1020_2180,
    0x0000_4402_0090_0020,
    0x0020_1008_2104_0400,
    0x1010_1200_2006_0028,
    0x0a10_00a0_2022_0200,
    0x20b0_20a1_0000_8402,
    0x0604_0102_1800_4040,
    0x1842_1010_8400_0a10,
    0x0410_4148_0800_200c,
    0xc000_1018_0400_0805,
    0x8284_2821_0400_2040,
    0x2042_2002_0881_0c04,
    0x2018_5000_4090_0200,
    0x8045_1004_0040_0100,
    0x00e1_5101_0210_0504,
    0x0080_4442_2010_0008,
    0x8004_4108_0111_0000,
    0x4802_0a09_0c88_4144,
    0x0606_4140_8404_0011,
    0x0420_0020_0850_4091,
    0x2200_2054_8102_1000,
    0x8020_0210_0101_0600,
    0x5008_1288_0602_2000,
    0x0202_0104_0202_02c0,
    0x8610_0a02_0202_021d,
    0x0025_0201_0061_1001,
    0x1020_4400_0042_0204,
    0x4200_1000_1002_1a02,
    0x0601_0040_0448_0080,
    0x0000_0408_1014_0092,
    0x0084_5004_0f04_0050,
];

} // verus!
