pub mod lcg_random;
