pub mod generic_maps;
