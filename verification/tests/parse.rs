//! Whole-table parsing: a realistic region-table text must parse, keep one
//! record per line, and print back byte for byte.

use beholder::maps::Maps;

#[test]
fn test_parse() {
    const EXAMPLE_PROC_MAPS: &'static str = EXAMPLE;

    let pagemap = Maps::parse(EXAMPLE_PROC_MAPS).unwrap();

    println!("{:#?}", pagemap);
    println!("{}", pagemap.to_string());
    assert_eq!(pagemap.iter().len(), EXAMPLE_PROC_MAPS.lines().count());
    assert_eq!(pagemap.to_string(), EXAMPLE_PROC_MAPS);
}

const EXAMPLE: &'static str = r#"00400000-004c0000 r-xp 00000000 103:01 270237                            /usr/bin/zsh
006bf000-006c0000 r--p 000bf000 103:01 270237                            /usr/bin/zsh
006c0000-006c7000 rw-p 000c0000 103:01 270237                            /usr/bin/zsh
006c7000-006da000 rw-p 00000000 00:00 0
00e08000-01135000 rw-p 00000000 00:00 0                                  [heap]
7fa281d2e000-7fa281d3e000 r-xp 00000000 103:01 270247                    /usr/lib64/zsh/5.5.1/zsh/computil.so
7fa281d3e000-7fa281f3d000 ---p 00010000 103:01 270247                    /usr/lib64/zsh/5.5.1/zsh/computil.so
7fa281f3d000-7fa281f3e000 r--p 0000f000 103:01 270247                    /usr/lib64/zsh/5.5.1/zsh/computil.so
7fa281f3e000-7fa281f3f000 rw-p 00010000 103:01 270247                    /usr/lib64/zsh/5.5.1/zsh/computil.so
7fa281f3f000-7fa281f42000 r-xp 00000000 103:01 270269                    /usr/lib64/zsh/5.5.1/zsh/stat.so
7fa281f42000-7fa282141000 ---p 00003000 103:01 270269                    /usr/lib64/zsh/5.5.1/zsh/stat.so
7fa282141000-7fa282142000 r--p 00002000 103:01 270269                    /usr/lib64/zsh/5.5.1/zsh/stat.so
7fa282142000-7fa282143000 rw-p 00003000 103:01 270269                    /usr/lib64/zsh/5.5.1/zsh/stat.so
7fa282143000-7fa282145000 r-xp 00000000 103:01 270272                    /usr/lib64/zsh/5.5.1/zsh/terminfo.so
7fa282145000-7fa282344000 ---p 00002000 103:01 270272                    /usr/lib64/zsh/5.5.1/zsh/terminfo.so
7fa282344000-7fa282345000 r--p 00001000 103:01 270272                    /usr/lib64/zsh/5.5.1/zsh/terminfo.so
7fa282345000-7fa282346000 rw-p 00002000 103:01 270272                    /usr/lib64/zsh/5.5.1/zsh/terminfo.so
7fa282346000-7fa282348000 r-xp 00000000 103:01 270255                    /usr/lib64/zsh/5.5.1/zsh/langinfo.so
7fa282348000-7fa282547000 ---p 00002000 103:01 270255                    /usr/lib64/zsh/5.5.1/zsh/langinfo.so
7fa282547000-7fa282548000 r--p 00001000 103:01 270255                    /usr/lib64/zsh/5.5.1/zsh/langinfo.so
7fa282548000-7fa282549000 rw-p 00002000 103:01 270255                    /usr/lib64/zsh/5.5.1/zsh/langinfo.so
7fa282549000-7fa282557000 r-xp 00000000 103:01 270246                    /usr/lib64/zsh/5.5.1/zsh/complist.so
7fa282557000-7fa282757000 ---p 0000e000 103:01 270246                    /usr/lib64/zsh/5.5.1/zsh/complist.so
7fa282757000-7fa282758000 r--p 0000e000 103:01 270246                    /usr/lib64/zsh/5.5.1/zsh/complist.so
7fa282758000-7fa282759000 rw-p 0000f000 103:01 270246                    /usr/lib64/zsh/5.5.1/zsh/complist.so
7fa282759000-7fa282761000 r-xp 00000000 103:01 270279                    /usr/lib64/zsh/5.5.1/zsh/zutil.so
7fa282761000-7fa282960000 ---p 00008000 103:01 270279                    /usr/lib64/zsh/5.5.1/zsh/zutil.so
7fa282960000-7fa282961000 r--p 00007000 103:01 270279                    /usr/lib64/zsh/5.5.1/zsh/zutil.so
7fa282961000-7fa282962000 rw-p 00008000 103:01 270279                    /usr/lib64/zsh/5.5.1/zsh/zutil.so
7fa282962000-7fa282985000 r-xp 00000000 103:01 270245                    /usr/lib64/zsh/5.5.1/zsh/complete.so
7fa282985000-7fa282b85000 ---p 00023000 103:01 270245                    /usr/lib64/zsh/5.5.1/zsh/complete.so
7fa282b85000-7fa282b86000 r--p 00023000 103:01 270245                    /usr/lib64/zsh/5.5.1/zsh/complete.so
7fa282b86000-7fa282b87000 rw-p 00024000 103:01 270245                    /usr/lib64/zsh/5.5.1/zsh/complete.so
7fa282b87000-7fa282b88000 rw-p 00000000 00:00 0
7fa282b88000-7fa282b92000 r-xp 00000000 103:01 270264                    /usr/lib64/zsh/5.5.1/zsh/parameter.so
7fa282b92000-7fa282d91000 ---p 0000a000 103:01 270264                    /usr/lib64/zsh/5.5.1/zsh/parameter.so
7fa282d91000-7fa282d92000 r--p 00009000 103:01 270264                    /usr/lib64/zsh/5.5.1/zsh/parameter.so
7fa282d92000-7fa282d93000 rw-p 0000a000 103:01 270264                    /usr/lib64/zsh/5.5.1/zsh/parameter.so
7fa282d93000-7fa282ddb000 r-xp 00000000 103:01 270274                    /usr/lib64/zsh/5.5.1/zsh/zle.so
7fa282ddb000-7fa282fda000 ---p 00048000 103:01 270274                    /usr/lib64/zsh/5.5.1/zsh/zle.so
7fa282fda000-7fa282fdc000 r--p 00047000 103:01 270274                    /usr/lib64/zsh/5.5.1/zsh/zle.so
7fa282fdc000-7fa282fe4000 rw-p 00049000 103:01 270274                    /usr/lib64/zsh/5.5.1/zsh/zle.so
7fa282fe4000-7fa289bb3000 r--p 00000000 103:01 276804                    /usr/lib/locale/locale-archive
7fa289bb3000-7fa289bcb000 r-xp 00000000 103:01 282043                    /usr/lib64/libpthread-2.26.so
7fa289bcb000-7fa289dcb000 ---p 00018000 103:01 282043                    /usr/lib64/libpthread-2.26.so
7fa289dcb000-7fa289dcc000 r--p 00018000 103:01 282043                    /usr/lib64/libpthread-2.26.so
7fa289dcc000-7fa289dcd000 rw-p 00019000 103:01 282043                    /usr/lib64/libpthread-2.26.so
7fa289dcd000-7fa289dd1000 rw-p 00000000 00:00 0
7fa289dd1000-7fa289f72000 r-xp 00000000 103:01 264810                    /usr/lib64/libc-2.26.so
7fa289f72000-7fa28a172000 ---p 001a1000 103:01 264810                    /usr/lib64/libc-2.26.so
7fa28a172000-7fa28a176000 r--p 001a1000 103:01 264810                    /usr/lib64/libc-2.26.so
7fa28a176000-7fa28a178000 rw-p 001a5000 103:01 264810                    /usr/lib64/libc-2.26.so
7fa28a178000-7fa28a17c000 rw-p 00000000 00:00 0
7fa28a17c000-7fa28a2bb000 r-xp 00000000 103:01 264817                    /usr/lib64/libm-2.26.so
7fa28a2bb000-7fa28a4ba000 ---p 0013f000 103:01 264817                    /usr/lib64/libm-2.26.so
7fa28a4ba000-7fa28a4bb000 r--p 0013e000 103:01 264817                    /usr/lib64/libm-2.26.so
7fa28a4bb000-7fa28a4bc000 rw-p 0013f000 103:01 264817                    /usr/lib64/libm-2.26.so
7fa28a4bc000-7fa28a4c3000 r-xp 00000000 103:01 289012                    /usr/lib64/librt-2.26.so
7fa28a4c3000-7fa28a6c2000 ---p 00007000 103:01 289012                    /usr/lib64/librt-2.26.so
7fa28a6c2000-7fa28a6c3000 r--p 00006000 103:01 289012                    /usr/lib64/librt-2.26.so
7fa28a6c3000-7fa28a6c4000 rw-p 00007000 103:01 289012                    /usr/lib64/librt-2.26.so
7fa28a6c4000-7fa28a6eb000 r-xp 00000000 103:01 265142                    /usr/lib64/libtinfo.so.6.0
7fa28a6eb000-7fa28a8ea000 ---p 00027000 103:01 265142                    /usr/lib64/libtinfo.so.6.0
7fa28a8ea000-7fa28a8ee000 r--p 00026000 103:01 265142                    /usr/lib64/libtinfo.so.6.0
7fa28a8ee000-7fa28a8ef000 rw-p 0002a000 103:01 265142                    /usr/lib64/libtinfo.so.6.0
7fa28a8ef000-7fa28a924000 r-xp 00000000 103:01 265134                    /usr/lib64/libncursesw.so.6.0
7fa28a924000-7fa28ab24000 ---p 00035000 103:01 265134                    /usr/lib64/libncursesw.so.6.0
7fa28ab24000-7fa28ab25000 r--p 00035000 103:01 265134                    /usr/lib64/libncursesw.so.6.0
7fa28ab25000-7fa28ab26000 rw-p 00036000 103:01 265134                    /usr/lib64/libncursesw.so.6.0
7fa28ab26000-7fa28ab29000 r-xp 00000000 103:01 264815                    /usr/lib64/libdl-2.26.so
7fa28ab29000-7fa28ad28000 ---p 00003000 103:01 264815                    /usr/lib64/libdl-2.26.so
7fa28ad28000-7fa28ad29000 r--p 00002000 103:01 264815                    /usr/lib64/libdl-2.26.so
7fa28ad29000-7fa28ad2a000 rw-p 00003000 103:01 264815                    /usr/lib64/libdl-2.26.so
7fa28ad2a000-7fa28ad8d000 r-xp 00000000 103:01 265311                    /usr/lib64/libpcre.so.1.2.0
7fa28ad8d000-7fa28af8c000 ---p 00063000 103:01 265311                    /usr/lib64/libpcre.so.1.2.0
7fa28af8c000-7fa28af8d000 r--p 00062000 103:01 265311                    /usr/lib64/libpcre.so.1.2.0
7fa28af8d000-7fa28af8e000 rw-p 00063000 103:01 265311                    /usr/lib64/libpcre.so.1.2.0
7fa28af8e000-7fa28af9a000 r-xp 00000000 103:01 266388                    /usr/lib64/libgdbm.so.4.0.0
7fa28af9a000-7fa28b199000 ---p 0000c000 103:01 266388                    /usr/lib64/libgdbm.so.4.0.0
7fa28b199000-7fa28b19a000 r--p 0000b000 103:01 266388                    /usr/lib64/libgdbm.so.4.0.0
7fa28b19a000-7fa28b19b000 rw-p 0000c000 103:01 266388                    /usr/lib64/libgdbm.so.4.0.0
7fa28b19b000-7fa28b1bf000 r-xp 00000000 103:01 264698                    /usr/lib64/ld-2.26.so
7fa28b36e000-7fa28b3a3000 r--s 00000000 103:01 132098                    /var/db/nscd/passwd
7fa28b3a3000-7fa28b3a9000 rw-p 00000000 00:00 0
7fa28b3af000-7fa28b3b6000 r--s 00000000 103:01 265116                    /usr/lib64/gconv/gconv-modules.cache
7fa28b3ba000-7fa28b3be000 rw-p 00000000 00:00 0
7fa28b3be000-7fa28b3bf000 r--p 00023000 103:01 264698                    /usr/lib64/ld-2.26.so
7fa28b3bf000-7fa28b3c0000 rw-p 00024000 103:01 264698                    /usr/lib64/ld-2.26.so
7fa28b3c0000-7fa28b3c1000 rw-p 00000000 00:00 0
7ffce82d7000-7ffce831f000 rw-p 00000000 00:00 0                          [stack]
7ffce83c1000-7ffce83c4000 r--p 00000000 00:00 0                          [vvar]
7ffce83c4000-7ffce83c6000 r-xp 00000000 00:00 0                          [vdso]
ffffffffff600000-ffffffffff601000 r-xp 00000000 00:00 0                  [vsyscall]
"#;
