pub mod div;
pub mod karatsuba;
pub mod knuthd;
pub mod limbs;
pub mod mul;
pub mod schoolbook;
