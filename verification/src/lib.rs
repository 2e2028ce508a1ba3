pub mod my_bc;
