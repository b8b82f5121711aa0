pub mod dataloader;
pub mod gptdataset;
pub mod n_gram_model;
pub mod tables;
pub mod text;
pub mod tokenizer;
